//! Closure over a dense graph given by adjacency lists.

use vstd::prelude::*;

use crate::flood::{unset, unset_decreases};
use crate::search::count_where;
use crate::walk::{closed_set_holds_reachable, reaches, reaches_self, reaches_then_step};

verus! {

/// `b` stands in the list of `a`.
pub open spec fn adjacent(adj: Seq<Vec<usize>>) -> spec_fn(usize, usize) -> bool {
    |a: usize, b: usize| a < adj.len() && adj[a as int]@.contains(b)
}

/// The nodes whose flag is set.
pub open spec fn flagged(mask: Seq<bool>) -> Set<usize> {
    Set::new(|i: usize| i < mask.len() && mask[i as int])
}

/// Some start reaches `b`.
pub open spec fn closes_to(adj: Seq<Vec<usize>>, starts: Seq<usize>, b: usize) -> bool {
    exists|k: int| 0 <= k < starts.len() && reaches(adjacent(adj), #[trigger] starts[k], b)
}

/// Marks everything that some start reaches.
pub fn close(adj: &Vec<Vec<usize>>, starts: &Vec<usize>) -> (seen: Vec<bool>)
    requires
        forall|k: int| 0 <= k < starts@.len() ==> (#[trigger] starts@[k]) < adj@.len(),
        forall|a: int, k: int|
            0 <= a < adj@.len() && 0 <= k < adj@[a]@.len() ==> (#[trigger] adj@[a]@[k]) < adj@.len(),
    ensures
        seen@.len() == adj@.len(),
        forall|b: usize| #[trigger] flagged(seen@).contains(b) <==> closes_to(adj@, starts@, b),
{
    let n = adj.len();
    let ghost step = adjacent(adj@);
    let mut seen: Vec<bool> = vec![false; n];
    let mut stack: Vec<usize> = Vec::new();
    let mut i: usize = 0;
    while i < starts.len()
        invariant
            n == adj@.len(),
            step == adjacent(adj@),
            seen@.len() == n,
            i <= starts@.len(),
            forall|k: int| 0 <= k < starts@.len() ==> (#[trigger] starts@[k]) < n,
            forall|b: usize| #[trigger] flagged(seen@).contains(b) ==> closes_to(adj@, starts@, b) && stack@.contains(b),
            forall|k: int| 0 <= k < i ==> flagged(seen@).contains(#[trigger] starts@[k]),
            forall|k: int| 0 <= k < stack@.len() ==> flagged(seen@).contains(#[trigger] stack@[k]),
        decreases starts@.len() - i,
    {
        let s = starts[i];
        let ghost seen0 = seen@;
        let ghost stack0 = stack@;
        if !seen[s] {
            seen[s] = true;
            stack.push(s);
        }
        proof {
            reaches_self(step, s);
            assert(starts@[i as int] == s);
            assert(closes_to(adj@, starts@, s));
            assert forall|b: usize| #[trigger] flagged(seen@).contains(b) implies closes_to(adj@, starts@, b) && stack@.contains(
                b,
            ) by {
                if flagged(seen0).contains(b) {
                    let q = choose|q: int| 0 <= q < stack0.len() && stack0[q] == b;
                    assert(stack@[q] == b);
                } else {
                    assert(stack@[stack0.len() as int] == b);
                }
            }
            assert forall|k: int| 0 <= k < stack@.len() implies flagged(seen@).contains(#[trigger] stack@[k]) by {
                if k < stack0.len() {
                    assert(flagged(seen0).contains(stack0[k]));
                }
            }
            assert forall|k: int| 0 <= k < i + 1 implies flagged(seen@).contains(#[trigger] starts@[k]) by {
                if k < i {
                    assert(flagged(seen0).contains(starts@[k]));
                }
            }
        }
        i = i + 1;
    }
    while stack.len() > 0
        invariant
            n == adj@.len(),
            step == adjacent(adj@),
            seen@.len() == n,
            forall|a: int, k: int|
                0 <= a < adj@.len() && 0 <= k < adj@[a]@.len() ==> (#[trigger] adj@[a]@[k]) < adj@.len(),
            forall|b: usize| #[trigger] flagged(seen@).contains(b) ==> closes_to(adj@, starts@, b),
            forall|k: int| 0 <= k < starts@.len() ==> flagged(seen@).contains(#[trigger] starts@[k]),
            forall|k: int| 0 <= k < stack@.len() ==> flagged(seen@).contains(#[trigger] stack@[k]),
            forall|x: usize, y: usize|
                flagged(seen@).contains(x) && #[trigger] step(x, y) ==> flagged(seen@).contains(y) || stack@.contains(x),
        decreases count_where(n as nat, unset(seen@)), stack@.len(),
    {
        let ghost stack0 = stack@;
        let ghost seen0 = seen@;
        let x = stack.pop().unwrap();
        let ghost rest = stack@;
        assert(x == stack0[stack0.len() - 1]);
        assert(flagged(seen@).contains(x));
        let m = adj[x].len();
        let mut j: usize = 0;
        while j < m
            invariant
                n == adj@.len(),
                step == adjacent(adj@),
                seen@.len() == n,
                x < n,
                m == adj@[x as int]@.len(),
                j <= m,
                forall|a: int, k: int|
                    0 <= a < adj@.len() && 0 <= k < adj@[a]@.len() ==> (#[trigger] adj@[a]@[k]) < adj@.len(),
                closes_to(adj@, starts@, x),
                forall|b: usize| #[trigger] flagged(seen@).contains(b) ==> closes_to(adj@, starts@, b),
                forall|b: usize| #[trigger] flagged(seen0).contains(b) ==> flagged(seen@).contains(b),
                forall|b: usize| #[trigger] flagged(seen@).contains(b) ==> flagged(seen0).contains(b) || stack@.contains(b),
                rest.len() <= stack@.len(),
                forall|k: int| 0 <= k < rest.len() ==> stack@[k] == #[trigger] rest[k],
                forall|k: int| 0 <= k < stack@.len() ==> flagged(seen@).contains(#[trigger] stack@[k]),
                forall|k: int| 0 <= k < j ==> flagged(seen@).contains(#[trigger] adj@[x as int]@[k]),
                count_where(n as nat, unset(seen@)) <= count_where(n as nat, unset(seen0)),
                count_where(n as nat, unset(seen@)) == count_where(n as nat, unset(seen0)) ==> stack@.len()
                    == rest.len(),
            decreases m - j,
        {
            let y = adj[x][j];
            let ghost seen1 = seen@;
            let ghost stack1 = stack@;
            if !seen[y] {
                proof {
                    assert(adj@[x as int]@.contains(y));
                    assert(step(x, y));
                    let k = choose|k: int| 0 <= k < starts@.len() && reaches(adjacent(adj@), #[trigger] starts@[k], x);
                    reaches_then_step(step, starts@[k], x, y);
                    assert(closes_to(adj@, starts@, y));
                    unset_decreases(n as nat, seen@, y as int);
                }
                seen[y] = true;
                stack.push(y);
            }
            proof {
                assert forall|b: usize| #[trigger] flagged(seen@).contains(b) implies closes_to(adj@, starts@, b) && (flagged(
                    seen0,
                ).contains(b) || stack@.contains(b)) by {
                    if flagged(seen1).contains(b) {
                        if stack1.contains(b) {
                            let q = choose|q: int| 0 <= q < stack1.len() && stack1[q] == b;
                            assert(stack@[q] == b);
                        }
                    } else {
                        assert(stack@[stack1.len() as int] == b);
                    }
                }
                assert forall|b: usize| #[trigger] flagged(seen0).contains(b) implies flagged(seen@).contains(b) by {
                    assert(flagged(seen1).contains(b));
                }
                assert forall|k: int| 0 <= k < stack@.len() implies flagged(seen@).contains(#[trigger] stack@[k]) by {
                    if k < stack1.len() {
                        assert(flagged(seen1).contains(stack1[k]));
                    }
                }
                assert forall|k: int| 0 <= k < j + 1 implies flagged(seen@).contains(#[trigger] adj@[x as int]@[k]) by {
                    if k < j {
                        assert(flagged(seen1).contains(adj@[x as int]@[k]));
                    }
                }
            }
            j = j + 1;
        }
        proof {
            assert forall|a: usize, b: usize| flagged(seen@).contains(a) && #[trigger] step(a, b) implies flagged(
                seen@,
            ).contains(b) || stack@.contains(a) by {
                if a == x {
                    let k = choose|k: int| 0 <= k < adj@[x as int]@.len() && adj@[x as int]@[k] == b;
                    assert(flagged(seen@).contains(adj@[x as int]@[k]));
                } else if flagged(seen0).contains(a) {
                    if !flagged(seen0).contains(b) {
                        assert(stack0.contains(a));
                        let q = choose|q: int| 0 <= q < stack0.len() && stack0[q] == a;
                        assert(rest[q] == a);
                        assert(stack@[q] == a);
                    }
                }
            }
            assert forall|k: int| 0 <= k < starts@.len() implies flagged(seen@).contains(#[trigger] starts@[k]) by {
                assert(flagged(seen0).contains(starts@[k]));
            }
        }
    }
    proof {
        assert forall|b: usize| closes_to(adj@, starts@, b) implies #[trigger] flagged(seen@).contains(b) by {
            let k = choose|k: int| 0 <= k < starts@.len() && reaches(adjacent(adj@), #[trigger] starts@[k], b);
            assert(flagged(seen@).contains(starts@[k]));
            closed_set_holds_reachable(step, flagged(seen@), starts@[k], b);
        }
    }
    seen
}

} // verus!
