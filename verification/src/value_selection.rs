//! The choice among the expressions that yield the same value.

use vstd::prelude::*;

use crate::condition_arcs::ShortModel;
use crate::dataflow::{dense_names, is_needed, PhiId};
use crate::evidence::{ShortCircuitCandidate, ShortCircuitExit, ShortCircuitNode};
use crate::short_order::copy_short;
use crate::value_decisions::ValueDecisionContext;

verus! {

/// The expression yields a value by at least two ways.
pub open spec fn yields_value(s: ShortModel) -> bool {
    s.exit is ValueMerge && s.result_phi_id is Some && s.result_reg is Some && s.entry_value is Some && s.reducible && s.nodes.len()
        > 0 && s.value_incomings.len() >= 2
}

/// The two expressions have the same control.
pub open spec fn same_control(a: ShortModel, b: ShortModel) -> bool {
    a.header == b.header && a.exit == b.exit && a.entry == b.entry && a.blocks == b.blocks && a.nodes == b.nodes
}

pub open spec fn short_models(list: Seq<ShortCircuitCandidate>) -> Seq<ShortModel> {
    Seq::new(list.len(), |i: int| list[i]@)
}

pub open spec fn result_of(s: ShortModel) -> PhiId {
    s.result_phi_id->0
}

impl<'a> ValueDecisionContext<'a> {
    /// Expression `i` yields a value and holds everything that it computes.
    pub open spec fn is_sound(&self, list: Seq<ShortModel>, i: int) -> bool {
        yields_value(list[i]) && self.control_closed(list[i]) && self.result_closed(list[i], result_of(list[i]))
    }

    /// Of two expressions with the same control, `j` goes before `i`: its phi is smaller, or
    /// it stands first.
    pub open spec fn goes_before(list: Seq<ShortModel>, j: int, i: int) -> bool {
        result_of(list[j]).0 < result_of(list[i]).0 || (result_of(list[j]) == result_of(list[i]) && j < i)
    }

    /// Expression `j` takes the control that expression `i` shares with it.
    pub open spec fn displaces(&self, list: Seq<ShortModel>, j: int, i: int) -> bool {
        self.is_sound(list, j) && same_control(list[i], list[j]) && Self::goes_before(list, j, i)
    }

    /// Expression `i` is sound, and first among those that share its control.
    pub open spec fn prevails(&self, list: Seq<ShortModel>, i: int) -> bool {
        self.is_sound(list, i) && forall|j: int| 0 <= j < list.len() ==> !#[trigger] self.displaces(list, j, i)
    }

    /// The largest of the first `n` expressions that prevail for phi `p`; the first of equals.
    pub open spec fn best_value(&self, list: Seq<ShortModel>, p: int, n: nat) -> Option<int>
        decreases n,
    {
        if n == 0 {
            None
        } else {
            let rest = self.best_value(list, p, (n - 1) as nat);
            let s = list[n - 1];
            if self.prevails(list, n - 1) && result_of(s).0 == p && (rest is None || s.nodes.len() > list[rest->0].nodes.len() || (
            s.nodes.len() == list[rest->0].nodes.len() && s.blocks.len() > list[rest->0].blocks.len())) {
                Some(n - 1)
            } else {
                rest
            }
        }
    }

    /// The expressions for the first `k` phis.
    pub open spec fn values_upto(&self, list: Seq<ShortModel>, k: nat) -> Seq<ShortModel>
        decreases k,
    {
        if k == 0 {
            Seq::empty()
        } else {
            let rest = self.values_upto(list, (k - 1) as nat);
            match self.best_value(list, k - 1, list.len()) {
                Some(i) => rest.push(list[i]),
                None => rest,
            }
        }
    }

    fn collect_sound(&self, list: &Vec<ShortCircuitCandidate>) -> (r: Vec<bool>)
        requires
            self.wf(),
        ensures
            r@.len() == list@.len(),
            forall|i: int| 0 <= i < r@.len() ==> #[trigger] r@[i] == self.is_sound(short_models(list@), i),
    {
        proof {
            self.dataflow.closed_needs_exist();
        }
        let dead = self.dataflow.compute_truly_dead_phis();
        proof {
            dense_names(self.dataflow.phi_candidates@);
        }
        let n = list.len();
        let ghost models = short_models(list@);
        let mut r: Vec<bool> = Vec::new();
        let mut i: usize = 0;
        while i < n
            invariant
                self.wf(),
                forall|x: PhiId| #[trigger] dead@.contains(x) <==> x.0 < self.dataflow.phi_candidates@.len() && !is_needed(
                    self.dataflow.use_values@,
                    self.dataflow.phi_candidates@,
                    x.0,
                ),
                n == list@.len(),
                models == short_models(list@),
                i <= n,
                r@.len() == i,
                forall|k: int| 0 <= k < i ==> #[trigger] r@[k] == self.is_sound(models, k),
            decreases n - i,
        {
            let c = &list[i];
            assert(models[i as int] == c@);
            let value = match c.exit {
                ShortCircuitExit::ValueMerge(_) => true,
                ShortCircuitExit::BranchExit { .. } => false,
            };
            let sound = if value && c.result_reg.is_some() && c.entry_value.is_some() && c.reducible && c.nodes.len() > 0
                && c.value_incomings.len() >= 2 {
                match c.result_phi_id {
                    Some(p) => self.value_decision_control_dag_is_closed(c) && self.value_decision_result_is_closed(&dead, c, p),
                    None => false,
                }
            } else {
                false
            };
            r.push(sound);
            i = i + 1;
        }
        r
    }

    fn check_prevails(&self, list: &Vec<ShortCircuitCandidate>, sound: &Vec<bool>, i: usize) -> (r: bool)
        requires
            sound@.len() == list@.len(),
            forall|k: int| 0 <= k < sound@.len() ==> #[trigger] sound@[k] == self.is_sound(short_models(list@), k),
            i < list@.len(),
        ensures
            r == self.prevails(short_models(list@), i as int),
    {
        if !sound[i] {
            return false;
        }
        let ghost models = short_models(list@);
        assert(models[i as int] == list@[i as int]@);
        let mine = match list[i].result_phi_id {
            Some(p) => p.0,
            None => 0,
        };
        let n = list.len();
        let mut j: usize = 0;
        while j < n
            invariant
                n == list@.len(),
                models == short_models(list@),
                sound@.len() == n,
                forall|k: int| 0 <= k < sound@.len() ==> #[trigger] sound@[k] == self.is_sound(models, k),
                i < n,
                sound@[i as int],
                mine == result_of(models[i as int]).0,
                models[i as int] == list@[i as int]@,
                j <= n,
                forall|k: int| 0 <= k < j ==> !#[trigger] self.displaces(models, k, i as int),
            decreases n - j,
        {
            assert(models[j as int] == list@[j as int]@);
            if sound[j] {
                let theirs = match list[j].result_phi_id {
                    Some(p) => p.0,
                    None => 0,
                };
                assert(theirs == result_of(models[j as int]).0);
                assert(theirs == mine <==> result_of(models[j as int]) == result_of(models[i as int]));
                if (theirs < mine || (theirs == mine && j < i)) && check_same_control(&list[i], &list[j]) {
                    assert(self.displaces(models, j as int, i as int));
                    return false;
                }
            }
            j = j + 1;
        }
        true
    }

    /// Chooses, for every phi, the expression that yields it.
    pub fn selected_value_decisions(&self, candidates: &Vec<ShortCircuitCandidate>) -> (r: Vec<ShortCircuitCandidate>)
        requires
            self.wf(),
        ensures
            short_models(r@) == self.values_upto(short_models(candidates@), self.dataflow.phi_candidates@.len()),
    {
        let sound = self.collect_sound(candidates);
        let n = candidates.len();
        let ghost models = short_models(candidates@);
        let mut first: Vec<bool> = Vec::new();
        let mut i: usize = 0;
        while i < n
            invariant
                n == candidates@.len(),
                models == short_models(candidates@),
                sound@.len() == n,
                forall|k: int| 0 <= k < sound@.len() ==> #[trigger] sound@[k] == self.is_sound(models, k),
                i <= n,
                first@.len() == i,
                forall|k: int| 0 <= k < i ==> #[trigger] first@[k] == self.prevails(models, k),
            decreases n - i,
        {
            first.push(self.check_prevails(candidates, &sound, i));
            i = i + 1;
        }
        let phis = self.dataflow.phi_candidates.len();
        let mut r: Vec<ShortCircuitCandidate> = Vec::new();
        assert(short_models(r@) =~= self.values_upto(models, 0));
        let mut p: usize = 0;
        while p < phis
            invariant
                n == candidates@.len(),
                models == short_models(candidates@),
                first@.len() == n,
                forall|k: int| 0 <= k < n ==> #[trigger] first@[k] == self.prevails(models, k),
                phis == self.dataflow.phi_candidates@.len(),
                p <= phis,
                short_models(r@) == self.values_upto(models, p as nat),
            decreases phis - p,
        {
            let ghost before = r@;
            if let Some(k) = self.find_best_value(candidates, &first, p) {
                assert(models[k as int] == candidates@[k as int]@);
                r.push(copy_short(&candidates[k]));
                assert(short_models(r@) =~= short_models(before).push(models[k as int]));
            }
            p = p + 1;
        }
        r
    }

    fn find_best_value(&self, list: &Vec<ShortCircuitCandidate>, first: &Vec<bool>, p: usize) -> (r: Option<usize>)
        requires
            first@.len() == list@.len(),
            forall|k: int| 0 <= k < first@.len() ==> #[trigger] first@[k] == self.prevails(short_models(list@), k),
        ensures
            match self.best_value(short_models(list@), p as int, list@.len()) {
                Some(i) => r is Some && (r->0) as int == i && r->0 < list@.len(),
                None => r is None,
            },
    {
        let n = list.len();
        let ghost models = short_models(list@);
        let mut best: Option<usize> = None;
        let mut i: usize = 0;
        while i < n
            invariant
                n == list@.len(),
                models == short_models(list@),
                first@.len() == n,
                forall|k: int| 0 <= k < first@.len() ==> #[trigger] first@[k] == self.prevails(models, k),
                i <= n,
                match self.best_value(models, p as int, i as nat) {
                    Some(k) => best is Some && (best->0) as int == k && best->0 < i,
                    None => best is None,
                },
            decreases n - i,
        {
            assert(models[i as int] == list@[i as int]@);
            let mine = match list[i].result_phi_id {
                Some(x) => x.0 == p,
                None => false,
            };
            if first[i] && mine {
                assert(result_of(models[i as int]).0 == p);
                let better = match best {
                    None => true,
                    Some(b) => {
                        assert(models[b as int] == list@[b as int]@);
                        list[i].nodes.len() > list[b].nodes.len() || (list[i].nodes.len() == list[b].nodes.len()
                            && list[i].blocks.len() > list[b].blocks.len())
                    },
                };
                if better {
                    best = Some(i);
                }
            }
            i = i + 1;
        }
        best
    }
}

fn check_same_nodes(a: &Vec<ShortCircuitNode>, b: &Vec<ShortCircuitNode>) -> (r: bool)
    ensures
        r == (a@ == b@),
{
    let n = a.len();
    if b.len() != n {
        return false;
    }
    let mut i: usize = 0;
    while i < n
        invariant
            n == a@.len(),
            n == b@.len(),
            i <= n,
            forall|k: int| 0 <= k < i ==> a@[k] == b@[k],
        decreases n - i,
    {
        if a[i] != b[i] {
            assert(a@[i as int] != b@[i as int]);
            return false;
        }
        i = i + 1;
    }
    assert(a@ =~= b@);
    true
}

fn check_same_control(a: &ShortCircuitCandidate, b: &ShortCircuitCandidate) -> (r: bool)
    ensures
        r == same_control(a@, b@),
{
    a.header == b.header && a.exit == b.exit && a.entry == b.entry && a.blocks.same_members(&b.blocks) && check_same_nodes(
        &a.nodes,
        &b.nodes,
    )
}

} // verus!
