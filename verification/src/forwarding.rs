//! The copies that a jump makes in place of the edges that it replaces.

use vstd::prelude::*;

use crate::cfg::Cfg;
use crate::dataflow::{DataflowFacts, PhiId, SsaValue};
use crate::error::{Fault, StructureError};
use crate::evidence::PhiEdgeCopy;
use crate::ids::{BlockRef, EdgeRef};
use crate::idset::IdSet;
use crate::lists::copy_list;
use crate::plan::ForwardRouteId;
use crate::search::{first_where, first_where_stable};
use crate::structure_plan::StructurePlan;

verus! {

pub open spec fn writes_phi(env: Seq<PhiEdgeCopy>, p: PhiId) -> spec_fn(int) -> bool {
    |i: int| env[i].phi_id == p
}

/// The value that a list of copies gives a phi.
pub open spec fn value_in(env: Seq<PhiEdgeCopy>, p: PhiId) -> Option<SsaValue> {
    match first_where(env.len(), writes_phi(env, p)) {
        Some(i) => Some(env[i].value),
        None => None,
    }
}

/// The copies with one more; a phi that has a value gets a new one in its place.
pub open spec fn with_copy(env: Seq<PhiEdgeCopy>, c: PhiEdgeCopy) -> Seq<PhiEdgeCopy> {
    match first_where(env.len(), writes_phi(env, c.phi_id)) {
        Some(i) => env.update(i, c),
        None => env.push(c),
    }
}

pub open spec fn with_copies(env: Seq<PhiEdgeCopy>, more: Seq<PhiEdgeCopy>, n: nat) -> Seq<PhiEdgeCopy>
    decreases n,
{
    if n == 0 {
        env
    } else {
        with_copy(with_copies(env, more, (n - 1) as nat), more[n - 1])
    }
}

/// Some edge out of the block lies on the route.
pub open spec fn leaves_on(cfg: &Cfg, plan: &StructurePlan, route: ForwardRouteId, b: BlockRef) -> bool {
    cfg.has_block(b) && exists|k: int| 0 <= k < cfg.out_edges(b).len() && plan.on_route(route, #[trigger] cfg.out_edges(b)[k])
}

/// What the copies are composed against.
pub struct ForwardedActionComposer<'a> {
    pub cfg: &'a Cfg,
    pub dataflow: &'a DataflowFacts,
    pub plan: &'a StructurePlan,
}

impl<'a> ForwardedActionComposer<'a> {
    pub open spec fn wf(&self) -> bool {
        self.cfg.wf() && self.plan.forward_wf()
    }

    /// The value behind definitions on the route that only hand one value on.
    pub open spec fn behind_defs(&self, route: ForwardRouteId, v: SsaValue, fuel: nat) -> Result<SsaValue, Fault>
        decreases fuel,
    {
        match v {
            SsaValue::Def(d) => if d.0 >= self.dataflow.defs@.len() {
                Err(Fault::ForwardedDefMissing(d))
            } else {
                let def = self.dataflow.defs@[d.0 as int];
                if !leaves_on(self.cfg, self.plan, route, def.block) {
                    Ok(v)
                } else if def.instr.0 >= self.dataflow.use_values@.len() {
                    Err(Fault::ForwardedUsesMissing(d))
                } else {
                    let reads = self.dataflow.use_values@[def.instr.0 as int].fixed@;
                    if reads.len() != 1 || fuel == 0 {
                        Ok(v)
                    } else {
                        self.behind_defs(route, reads[0].1, (fuel - 1) as nat)
                    }
                }
            },
            _ => Ok(v),
        }
    }

    /// The value as the copies so far leave it. A phi that leads back to itself stays.
    pub open spec fn seen_through(
        &self,
        route: Option<ForwardRouteId>,
        env: Seq<PhiEdgeCopy>,
        v: SsaValue,
        seen: Set<PhiId>,
        fuel: nat,
    ) -> Result<SsaValue, Fault>
        decreases fuel,
    {
        let here = match route {
            Some(r) => self.behind_defs(r, v, self.dataflow.defs@.len()),
            None => Ok(v),
        };
        match here {
            Ok(SsaValue::Phi(p)) => if p.0 >= self.dataflow.phi_candidates@.len() {
                Err(Fault::ForwardedPhiMissing(p))
            } else {
                match value_in(env, p) {
                    Some(w) => if seen.contains(p) || fuel == 0 {
                        Ok(SsaValue::Phi(p))
                    } else {
                        self.seen_through(route, env, w, seen.insert(p), (fuel - 1) as nat)
                    },
                    None => Ok(SsaValue::Phi(p)),
                }
            },
            other => other,
        }
    }

    /// The first `n` copies of a batch, with the values as they are before the batch.
    pub open spec fn batch(
        &self,
        route: Option<ForwardRouteId>,
        env: Seq<PhiEdgeCopy>,
        resolve: bool,
        copies: Seq<PhiEdgeCopy>,
        n: nat,
    ) -> Result<
        Seq<PhiEdgeCopy>,
        Fault,
    >
        decreases n,
    {
        if n == 0 {
            Ok(Seq::empty())
        } else {
            match self.batch(route, env, resolve, copies, (n - 1) as nat) {
                Ok(rest) => {
                    let c = copies[n - 1];
                    let v = if resolve {
                        self.seen_through(route, env, c.value, Set::empty(), env.len())
                    } else {
                        Ok(c.value)
                    };
                    match v {
                        Ok(value) => if c.phi_id.0 >= self.dataflow.phi_candidates@.len() {
                            Err(Fault::ForwardedTargetMissing(c.phi_id))
                        } else if value_in(rest, c.phi_id) is Some {
                            Err(Fault::ForwardedTargetTwice(c.phi_id))
                        } else {
                            Ok(rest.push(PhiEdgeCopy { phi_id: c.phi_id, value }))
                        },
                        Err(f) => Err(f),
                    }
                },
                Err(f) => Err(f),
            }
        }
    }

    /// The copies after one more batch, whose copies all happen at once.
    pub open spec fn after_batch(
        &self,
        route: Option<ForwardRouteId>,
        env: Seq<PhiEdgeCopy>,
        resolve: bool,
        copies: Seq<PhiEdgeCopy>,
    ) -> Result<
        Seq<PhiEdgeCopy>,
        Fault,
    > {
        match self.batch(route, env, resolve, copies, copies.len()) {
            Ok(list) => Ok(with_copies(env, list, list.len())),
            Err(f) => Err(f),
        }
    }

    /// The copies of the first `n` edges of a route together.
    pub open spec fn route_copies(
        &self,
        route: ForwardRouteId,
        edges: Seq<EdgeRef>,
        n: nat,
    ) -> Result<Seq<PhiEdgeCopy>, Fault>
        decreases n,
    {
        if n == 0 {
            Ok(Seq::empty())
        } else {
            match self.route_copies(route, edges, (n - 1) as nat) {
                Ok(env) => self.after_batch(Some(route), env, true, self.plan.edge_plans@[edges[n - 1].0 as int].phi_copies@),
                Err(f) => Err(f),
            }
        }
    }

    /// Everything that an edge copies: its own copies, then those of the route that it takes.
    pub open spec fn effective(&self, edge: EdgeRef) -> Result<Seq<PhiEdgeCopy>, Fault> {
        if edge.0 >= self.plan.edge_plans@.len() {
            Err(Fault::EdgePlanMissing(edge))
        } else {
            let own = self.plan.edge_plans@[edge.0 as int].phi_copies@;
            match self.plan.edge_plans@[edge.0 as int].forward_route {
                Some(route) => {
                    let edges = self.plan.actions_of(route);
                    match self.route_copies(route, edges, edges.len()) {
                        Ok(summary) => match self.after_batch(None, Seq::empty(), false, own) {
                            Ok(env) => self.after_batch(None, env, true, summary),
                            Err(f) => Err(f),
                        },
                        Err(f) => Err(f),
                    }
                },
                None => Ok(own),
            }
        }
    }

    pub fn new(cfg: &'a Cfg, dataflow: &'a DataflowFacts, plan: &'a StructurePlan) -> (r: Self)
        ensures
            r.cfg == cfg,
            r.dataflow == dataflow,
            r.plan == plan,
    {
        ForwardedActionComposer { cfg, dataflow, plan }
    }

    fn check_leaves_on(&self, route: ForwardRouteId, b: BlockRef) -> (r: bool)
        requires
            self.wf(),
        ensures
            r == leaves_on(self.cfg, self.plan, route, b),
    {
        if b.0 >= self.cfg.succs.len() {
            return false;
        }
        assert(self.cfg.has_block(b));
        let n = self.cfg.succs[b.0].len();
        let mut k: usize = 0;
        while k < n
            invariant
                self.cfg.has_block(b),
                self.cfg.wf(),
                n == self.cfg.out_edges(b).len(),
                k <= n,
                forall|q: int| 0 <= q < k ==> !self.plan.on_route(route, #[trigger] self.cfg.out_edges(b)[q]),
            decreases n - k,
        {
            let e = self.cfg.succs[b.0][k];
            assert(e == self.cfg.out_edges(b)[k as int]);
            if self.plan.forward_route_contains_edge(route, e) {
                return true;
            }
            k = k + 1;
        }
        false
    }

    /// Looks behind definitions on the route that only hand one value on.
    pub fn collapse_forwarded_defs(&self, route: ForwardRouteId, value: SsaValue) -> (r: Result<SsaValue, StructureError>)
        requires
            self.wf(),
        ensures
            match r {
                Ok(v) => self.behind_defs(route, value, self.dataflow.defs@.len()) == Ok::<SsaValue, Fault>(v),
                Err(e) => self.behind_defs(route, value, self.dataflow.defs@.len()) == Err::<SsaValue, Fault>(e.fault),
            },
    {
        let mut at = value;
        let mut fuel: usize = self.dataflow.defs.len();
        let mut going = true;
        while going
            invariant
                self.wf(),
                self.behind_defs(route, value, self.dataflow.defs@.len()) == self.behind_defs(route, at, fuel as nat),
                !going ==> self.behind_defs(route, at, fuel as nat) == Ok::<SsaValue, Fault>(at),
            decreases fuel, (if going { 1nat } else { 0nat }),
        {
            match at {
                SsaValue::Def(d) => {
                    if d.0 >= self.dataflow.defs.len() {
                        return Err(StructureError::invalid(Fault::ForwardedDefMissing(d)));
                    }
                    let def = self.dataflow.defs[d.0];
                    if !self.check_leaves_on(route, def.block) {
                        going = false;
                    } else if def.instr.0 >= self.dataflow.use_values.len() {
                        return Err(StructureError::invalid(Fault::ForwardedUsesMissing(d)));
                    } else {
                        let reads = &self.dataflow.use_values[def.instr.0].fixed;
                        if reads.len() != 1 || fuel == 0 {
                            going = false;
                        } else {
                            at = reads.entry(0).1;
                            fuel = fuel - 1;
                        }
                    }
                },
                _ => {
                    going = false;
                },
            }
        }
        Ok(at)
    }

    fn look_behind(&self, route: Option<ForwardRouteId>, v: SsaValue) -> (r: Result<SsaValue, StructureError>)
        requires
            self.wf(),
        ensures
            ({
                let here = match route {
                    Some(x) => self.behind_defs(x, v, self.dataflow.defs@.len()),
                    None => Ok(v),
                };
                match r {
                    Ok(w) => here == Ok::<SsaValue, Fault>(w),
                    Err(e) => here == Err::<SsaValue, Fault>(e.fault),
                }
            }),
    {
        match route {
            Some(x) => self.collapse_forwarded_defs(x, v),
            None => Ok(v),
        }
    }

    /// The value as the copies so far leave it.
    pub fn resolve_forwarded_value(
        &self,
        route: Option<ForwardRouteId>,
        env: &Vec<PhiEdgeCopy>,
        value: SsaValue,
    ) -> (r: Result<
        SsaValue,
        StructureError,
    >)
        requires
            self.wf(),
        ensures
            match r {
                Ok(v) => self.seen_through(route, env@, value, Set::empty(), env@.len()) == Ok::<SsaValue, Fault>(v),
                Err(e) => self.seen_through(route, env@, value, Set::empty(), env@.len()) == Err::<SsaValue, Fault>(e.fault),
            },
    {
        let mut at = value;
        let mut seen: IdSet<PhiId> = IdSet::new();
        let mut fuel: usize = env.len();
        loop
            invariant
                self.wf(),
                self.seen_through(route, env@, value, Set::empty(), env@.len()) == self.seen_through(
                    route,
                    env@,
                    at,
                    seen@,
                    fuel as nat,
                ),
            decreases fuel,
        {
            let here = match self.look_behind(route, at) {
                Ok(v) => v,
                Err(e) => {
                    return Err(e);
                },
            };
            match here {
                SsaValue::Phi(p) => {
                    if p.0 >= self.dataflow.phi_candidates.len() {
                        return Err(StructureError::invalid(Fault::ForwardedPhiMissing(p)));
                    }
                    match find_value(env, p) {
                        Some(w) => {
                            if seen.contains(p) || fuel == 0 {
                                return Ok(here);
                            }
                            let _ = seen.insert(p);
                            at = w;
                            fuel = fuel - 1;
                        },
                        None => {
                            return Ok(here);
                        },
                    }
                },
                _ => {
                    return Ok(here);
                },
            }
        }
    }

    proof fn batch_stops(
        &self,
        route: Option<ForwardRouteId>,
        env: Seq<PhiEdgeCopy>,
        resolve: bool,
        copies: Seq<PhiEdgeCopy>,
        m: nat,
        n: nat,
    )
        requires
            m <= n,
            self.batch(route, env, resolve, copies, m) is Err,
        ensures
            self.batch(route, env, resolve, copies, n) == self.batch(route, env, resolve, copies, m),
        decreases n,
    {
        if m < n {
            self.batch_stops(route, env, resolve, copies, m, (n - 1) as nat);
        }
    }

    fn collect_batch(
        &self,
        route: Option<ForwardRouteId>,
        env: &Vec<PhiEdgeCopy>,
        resolve: bool,
        copies: &Vec<PhiEdgeCopy>,
    ) -> (r: Result<
        Vec<PhiEdgeCopy>,
        StructureError,
    >)
        requires
            self.wf(),
        ensures
            match r {
                Ok(list) => self.batch(route, env@, resolve, copies@, copies@.len()) == Ok::<Seq<PhiEdgeCopy>, Fault>(list@),
                Err(e) => self.batch(route, env@, resolve, copies@, copies@.len()) == Err::<Seq<PhiEdgeCopy>, Fault>(e.fault),
            },
    {
        let n = copies.len();
        let mut list: Vec<PhiEdgeCopy> = Vec::new();
        assert(list@ =~= Seq::empty());
        let mut i: usize = 0;
        while i < n
            invariant
                self.wf(),
                n == copies@.len(),
                i <= n,
                self.batch(route, env@, resolve, copies@, i as nat) == Ok::<Seq<PhiEdgeCopy>, Fault>(list@),
            decreases n - i,
        {
            let c = copies[i];
            let value = if resolve {
                match self.resolve_forwarded_value(route, env, c.value) {
                    Ok(v) => v,
                    Err(e) => {
                        proof {
                            self.batch_stops(route, env@, resolve, copies@, (i + 1) as nat, n as nat);
                        }
                        return Err(e);
                    },
                }
            } else {
                c.value
            };
            if c.phi_id.0 >= self.dataflow.phi_candidates.len() {
                proof {
                    self.batch_stops(route, env@, resolve, copies@, (i + 1) as nat, n as nat);
                }
                return Err(StructureError::invalid(Fault::ForwardedTargetMissing(c.phi_id)));
            }
            if find_value(&list, c.phi_id).is_some() {
                proof {
                    self.batch_stops(route, env@, resolve, copies@, (i + 1) as nat, n as nat);
                }
                return Err(StructureError::invalid(Fault::ForwardedTargetTwice(c.phi_id)));
            }
            list.push(PhiEdgeCopy { phi_id: c.phi_id, value });
            i = i + 1;
        }
        Ok(list)
    }

    /// Adds a batch of copies, all of which happen at once.
    pub fn apply_forwarded_batch(
        &self,
        route: Option<ForwardRouteId>,
        env: &mut Vec<PhiEdgeCopy>,
        resolve: bool,
        copies: &Vec<PhiEdgeCopy>,
    ) -> (r: Result<
        (),
        StructureError,
    >)
        requires
            self.wf(),
        ensures
            match r {
                Ok(_) => self.after_batch(route, old(env)@, resolve, copies@) == Ok::<Seq<PhiEdgeCopy>, Fault>(final(env)@),
                Err(e) => self.after_batch(route, old(env)@, resolve, copies@) == Err::<Seq<PhiEdgeCopy>, Fault>(e.fault),
            },
    {
        let list = match self.collect_batch(route, env, resolve, copies) {
            Ok(l) => l,
            Err(e) => {
                return Err(e);
            },
        };
        let n = list.len();
        let mut i: usize = 0;
        while i < n
            invariant
                n == list@.len(),
                i <= n,
                env@ == with_copies(old(env)@, list@, i as nat),
            decreases n - i,
        {
            add_copy(env, list[i]);
            i = i + 1;
        }
        Ok(())
    }

    proof fn route_copies_stop(&self, route: ForwardRouteId, edges: Seq<EdgeRef>, m: nat, n: nat)
        requires
            m <= n,
            self.route_copies(route, edges, m) is Err,
        ensures
            self.route_copies(route, edges, n) == self.route_copies(route, edges, m),
        decreases n,
    {
        if m < n {
            self.route_copies_stop(route, edges, m, (n - 1) as nat);
        }
    }

    /// Everything that an edge copies: its own copies, then those of the route that it takes.
    pub fn effective_edge_copies(&self, edge: EdgeRef) -> (r: Result<Vec<PhiEdgeCopy>, StructureError>)
        requires
            self.wf(),
            self.plan.forward_preorder@.len() <= self.plan.edge_plans@.len(),
        ensures
            match r {
                Ok(list) => self.effective(edge) == Ok::<Seq<PhiEdgeCopy>, Fault>(list@),
                Err(e) => self.effective(edge) == Err::<Seq<PhiEdgeCopy>, Fault>(e.fault),
            },
    {
        if edge.0 >= self.plan.edge_plans.len() {
            return Err(StructureError::invalid(Fault::EdgePlanMissing(edge)));
        }
        let own = &self.plan.edge_plans[edge.0].phi_copies;
        let route = match self.plan.edge_plans[edge.0].forward_route {
            Some(route) => route,
            None => {
                return Ok(copy_list(own));
            },
        };
        let edges = self.plan.forward_route_action_edges(route);
        let n = edges.len();
        let mut summary: Vec<PhiEdgeCopy> = Vec::new();
        assert(summary@ =~= Seq::empty());
        let mut i: usize = 0;
        while i < n
            invariant
                self.wf(),
                self.plan.forward_preorder@.len() <= self.plan.edge_plans@.len(),
                edge.0 < self.plan.edge_plans@.len(),
                self.plan.edge_plans@[edge.0 as int].forward_route == Some(route),
                edges@ == self.plan.actions_of(route),
                forall|k: int| 0 <= k < edges@.len() ==> self.plan.on_route(route, #[trigger] edges@[k]),
                n == edges@.len(),
                i <= n,
                self.route_copies(route, edges@, i as nat) == Ok::<Seq<PhiEdgeCopy>, Fault>(summary@),
            decreases n - i,
        {
            let at = edges[i];
            assert(self.plan.on_route(route, edges@[i as int]));
            if let Err(e) = self.apply_forwarded_batch(Some(route), &mut summary, true, &self.plan.edge_plans[at.0].phi_copies) {
                proof {
                    self.route_copies_stop(route, edges@, (i + 1) as nat, n as nat);
                }
                return Err(e);
            }
            i = i + 1;
        }
        let mut env: Vec<PhiEdgeCopy> = Vec::new();
        assert(env@ =~= Seq::empty());
        if let Err(e) = self.apply_forwarded_batch(None, &mut env, false, own) {
            return Err(e);
        }
        if let Err(e) = self.apply_forwarded_batch(None, &mut env, true, &summary) {
            return Err(e);
        }
        Ok(env)
    }
}

fn find_value(env: &Vec<PhiEdgeCopy>, p: PhiId) -> (r: Option<SsaValue>)
    ensures
        r == value_in(env@, p),
{
    let n = env.len();
    let ghost f = writes_phi(env@, p);
    let mut i: usize = 0;
    while i < n
        invariant
            n == env@.len(),
            f == writes_phi(env@, p),
            i <= n,
            first_where(i as nat, f) is None,
        decreases n - i,
    {
        assert(f(i as int) == (env@[i as int].phi_id == p));
        if env[i].phi_id == p {
            proof {
                first_where_stable((i + 1) as nat, n as nat, f);
            }
            return Some(env[i].value);
        }
        i = i + 1;
    }
    None
}

fn add_copy(env: &mut Vec<PhiEdgeCopy>, c: PhiEdgeCopy)
    ensures
        final(env)@ == with_copy(old(env)@, c),
{
    let n = env.len();
    let ghost f = writes_phi(env@, c.phi_id);
    let mut i: usize = 0;
    while i < n
        invariant
            env@ == old(env)@,
            n == env@.len(),
            f == writes_phi(env@, c.phi_id),
            i <= n,
            first_where(i as nat, f) is None,
        decreases n - i,
    {
        assert(f(i as int) == (env@[i as int].phi_id == c.phi_id));
        if env[i].phi_id == c.phi_id {
            proof {
                first_where_stable((i + 1) as nat, n as nat, f);
            }
            env[i] = c;
            return;
        }
        i = i + 1;
    }
    env.push(c);
}

} // verus!
