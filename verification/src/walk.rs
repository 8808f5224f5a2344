//! Walks along a step relation, and the laws of reachability.

use vstd::prelude::*;

use crate::ids::BlockRef;

verus! {

/// A step relation between blocks.
pub type Step = spec_fn(BlockRef, BlockRef) -> bool;

/// `p` is a nonempty walk: every element steps to the next.
pub open spec fn is_walk<T>(step: spec_fn(T, T) -> bool, p: Seq<T>) -> bool {
    p.len() > 0 && forall|i: int| 0 <= i < p.len() - 1 ==> step(#[trigger] p[i], p[i + 1])
}

/// `b` can be reached from `a` by zero or more steps.
pub open spec fn reaches<T>(step: spec_fn(T, T) -> bool, a: T, b: T) -> bool {
    exists|p: Seq<T>| #[trigger] is_walk(step, p) && p.first() == a && p.last() == b
}

pub proof fn reaches_self<T>(step: spec_fn(T, T) -> bool, a: T)
    ensures
        reaches(step, a, a),
{
    assert(is_walk(step, seq![a]));
}

pub proof fn reaches_then_step<T>(step: spec_fn(T, T) -> bool, a: T, b: T, c: T)
    requires
        reaches(step, a, b),
        step(b, c),
    ensures
        reaches(step, a, c),
{
    let p = choose|p: Seq<T>| #[trigger] is_walk(step, p) && p.first() == a && p.last() == b;
    let q = p.push(c);
    assert forall|i: int| 0 <= i < q.len() - 1 implies step(#[trigger] q[i], q[i + 1]) by {
        if i < p.len() - 1 {
            assert(q[i] == p[i] && q[i + 1] == p[i + 1]);
        }
    }
    assert(is_walk(step, q));
    assert(q.first() == a && q.last() == c);
}

pub proof fn reaches_transitive<T>(step: spec_fn(T, T) -> bool, a: T, b: T, c: T)
    requires
        reaches(step, a, b),
        reaches(step, b, c),
    ensures
        reaches(step, a, c),
{
    let p = choose|p: Seq<T>| #[trigger] is_walk(step, p) && p.first() == b && p.last() == c;
    walk_extends(step, a, p, (p.len() - 1) as nat);
}

proof fn walk_extends<T>(step: spec_fn(T, T) -> bool, a: T, p: Seq<T>, k: nat)
    requires
        is_walk(step, p),
        reaches(step, a, p.first()),
        k < p.len(),
    ensures
        reaches(step, a, p[k as int]),
    decreases k,
{
    if k > 0 {
        walk_extends(step, a, p, (k - 1) as nat);
        reaches_then_step(step, a, p[k - 1], p[k as int]);
    }
}

/// A set that holds `a` and is closed under the relation holds everything reachable from `a`.
pub proof fn closed_set_holds_reachable<T>(step: spec_fn(T, T) -> bool, s: Set<T>, a: T, b: T)
    requires
        s.contains(a),
        forall|x: T, y: T| s.contains(x) && #[trigger] step(x, y) ==> s.contains(y),
        reaches(step, a, b),
    ensures
        s.contains(b),
{
    let p = choose|p: Seq<T>| #[trigger] is_walk(step, p) && p.first() == a && p.last() == b;
    closed_set_holds_walk(step, s, p, (p.len() - 1) as nat);
}

proof fn closed_set_holds_walk<T>(step: spec_fn(T, T) -> bool, s: Set<T>, p: Seq<T>, k: nat)
    requires
        is_walk(step, p),
        s.contains(p.first()),
        forall|x: T, y: T| s.contains(x) && #[trigger] step(x, y) ==> s.contains(y),
        k < p.len(),
    ensures
        s.contains(p[k as int]),
    decreases k,
{
    if k > 0 {
        closed_set_holds_walk(step, s, p, (k - 1) as nat);
        assert(step(p[k - 1], p[k - 1 + 1]));
    }
}

/// What a walk reaches along `weak` it reaches along any relation that allows more steps.
pub proof fn reaches_monotone<T>(weak: spec_fn(T, T) -> bool, strong: spec_fn(T, T) -> bool, a: T, b: T)
    requires
        reaches(weak, a, b),
        forall|x: T, y: T| #[trigger] weak(x, y) ==> strong(x, y),
    ensures
        reaches(strong, a, b),
{
    let p = choose|p: Seq<T>| #[trigger] is_walk(weak, p) && p.first() == a && p.last() == b;
    assert forall|i: int| 0 <= i < p.len() - 1 implies strong(#[trigger] p[i], p[i + 1]) by {
        assert(weak(p[i], p[i + 1]));
    }
    assert(is_walk(strong, p));
}

/// A walk of more than zero steps starts with one step.
pub proof fn reaches_first_step<T>(step: spec_fn(T, T) -> bool, a: T, b: T) -> (x: T)
    requires
        reaches(step, a, b),
        a != b,
    ensures
        step(a, x),
        reaches(step, x, b),
{
    let p = choose|p: Seq<T>| #[trigger] is_walk(step, p) && p.first() == a && p.last() == b;
    assert(p.len() > 1);
    assert(step(p[0int], p[0int + 1]));
    let q = p.subrange(1, p.len() as int);
    assert forall|i: int| 0 <= i < q.len() - 1 implies step(#[trigger] q[i], q[i + 1]) by {
        assert(q[i] == p[i + 1] && q[i + 1] == p[i + 2]);
        assert(step(p[i + 1], p[i + 1 + 1]));
    }
    assert(is_walk(step, q));
    assert(q.first() == p[1] && q.last() == p.last());
    p[1]
}

/// Walking backwards along the reversed relation.
pub proof fn reaches_reversed<T>(step: spec_fn(T, T) -> bool, back: spec_fn(T, T) -> bool, a: T, b: T)
    requires
        forall|x: T, y: T| #[trigger] step(x, y) ==> back(y, x),
        reaches(step, a, b),
    ensures
        reaches(back, b, a),
{
    let p = choose|p: Seq<T>| #[trigger] is_walk(step, p) && p.first() == a && p.last() == b;
    let q = p.reverse();
    assert forall|i: int| 0 <= i < q.len() - 1 implies back(#[trigger] q[i], q[i + 1]) by {
        let j = p.len() - 2 - i;
        assert(step(p[j], p[j + 1]));
    }
    assert(is_walk(back, q));
    assert(q.first() == b && q.last() == a);
}

/// A map that keeps steps keeps reachability.
pub proof fn reaches_mapped<T, U>(step: spec_fn(T, T) -> bool, other: spec_fn(U, U) -> bool, f: spec_fn(T) -> U, a: T, b: T)
    requires
        forall|x: T, y: T| #[trigger] step(x, y) ==> other(f(x), f(y)),
        reaches(step, a, b),
    ensures
        reaches(other, f(a), f(b)),
{
    let p = choose|p: Seq<T>| #[trigger] is_walk(step, p) && p.first() == a && p.last() == b;
    let q = Seq::new(p.len(), |i: int| f(p[i]));
    assert forall|i: int| 0 <= i < q.len() - 1 implies other(#[trigger] q[i], q[i + 1]) by {
        assert(step(p[i], p[i + 1]));
    }
    assert(is_walk(other, q));
    assert(q.first() == f(a) && q.last() == f(b));
}

} // verus!
