//! Linear searches over index ranges, as spec functions with the facts that pin them down.

use vstd::prelude::*;

verus! {

/// The first index below `n` that satisfies `p`.
pub open spec fn first_where(n: nat, p: spec_fn(int) -> bool) -> Option<int>
    decreases n,
{
    if n == 0 {
        None
    } else {
        match first_where((n - 1) as nat, p) {
            Some(i) => Some(i),
            None => if p(n - 1) {
                Some(n - 1)
            } else {
                None
            },
        }
    }
}

/// `first_where` is the least index that satisfies `p`, when there is one.
pub proof fn first_where_least(n: nat, p: spec_fn(int) -> bool)
    ensures
        match first_where(n, p) {
            Some(i) => 0 <= i < n && p(i) && (forall|j: int| 0 <= j < i ==> !#[trigger] p(j)),
            None => forall|j: int| 0 <= j < n ==> !#[trigger] p(j),
        },
    decreases n,
{
    if n > 0 {
        first_where_least((n - 1) as nat, p);
    }
}

/// The number of indices below `n` that satisfy `p`.
pub open spec fn count_where(n: nat, p: spec_fn(int) -> bool) -> nat
    decreases n,
{
    if n == 0 {
        0
    } else {
        count_where((n - 1) as nat, p) + if p(n - 1) {
            1nat
        } else {
            0nat
        }
    }
}

pub proof fn count_where_bound(n: nat, p: spec_fn(int) -> bool)
    ensures
        count_where(n, p) <= n,
    decreases n,
{
    if n > 0 {
        count_where_bound((n - 1) as nat, p);
    }
}

/// The only index below `n` that satisfies `p`, when there is exactly one.
pub open spec fn only_where(n: nat, p: spec_fn(int) -> bool) -> Option<int> {
    if count_where(n, p) == 1 {
        first_where(n, p)
    } else {
        None
    }
}

/// Where nothing below `n` satisfies `p`, nothing is counted, and something is counted otherwise.
pub proof fn count_where_none(n: nat, p: spec_fn(int) -> bool)
    ensures
        count_where(n, p) == 0 <==> (forall|j: int| 0 <= j < n ==> !#[trigger] p(j)),
    decreases n,
{
    if n > 0 {
        count_where_none((n - 1) as nat, p);
    }
}

/// The only index stands alone, and an index that stands alone is the only one.
pub proof fn only_where_alone(n: nat, p: spec_fn(int) -> bool, i: int)
    ensures
        only_where(n, p) == Some(i) <==> 0 <= i < n && p(i) && (forall|j: int| 0 <= j < n && j != i ==> !#[trigger] p(j)),
    decreases n,
{
    first_where_least(n, p);
    count_where_none(n, p);
    if n > 0 {
        let m = (n - 1) as nat;
        only_where_alone(m, p, i);
        first_where_least(m, p);
        count_where_none(m, p);
        if p(m as int) && count_where(n, p) == 1 {
            assert(count_where(m, p) == 0);
        }
        if !p(m as int) {
            assert(count_where(n, p) == count_where(m, p));
        }
        if 0 <= i < n && p(i) && (forall|j: int| 0 <= j < n && j != i ==> !#[trigger] p(j)) {
            if i == m {
                assert(count_where(m, p) == 0);
            } else {
                assert(!p(m as int));
            }
        }
    }
}

/// The first index below `n` with the least `key` among those that satisfy `p`.
pub open spec fn least_where(n: nat, p: spec_fn(int) -> bool, key: spec_fn(int) -> int) -> Option<int>
    decreases n,
{
    if n == 0 {
        None
    } else {
        let best = least_where((n - 1) as nat, p, key);
        if p(n - 1) && (best is None || key(n - 1) < key(best->0)) {
            Some(n - 1)
        } else {
            best
        }
    }
}

/// `least_where` satisfies `p`, no other candidate has a smaller key, and every earlier one
/// has a larger key.
pub proof fn least_where_least(n: nat, p: spec_fn(int) -> bool, key: spec_fn(int) -> int)
    ensures
        match least_where(n, p, key) {
            Some(i) => {
                &&& 0 <= i < n
                &&& p(i)
                &&& forall|j: int| 0 <= j < n && #[trigger] p(j) ==> key(i) <= key(j)
                &&& forall|j: int| 0 <= j < i && #[trigger] p(j) ==> key(i) < key(j)
            },
            None => forall|j: int| 0 <= j < n ==> !#[trigger] p(j),
        },
    decreases n,
{
    if n > 0 {
        least_where_least((n - 1) as nat, p, key);
    }
}

/// The first value that `f` gives below `n`.
pub open spec fn first_some<T>(n: nat, f: spec_fn(int) -> Option<T>) -> Option<T>
    decreases n,
{
    if n == 0 {
        None
    } else {
        match first_some((n - 1) as nat, f) {
            Some(v) => Some(v),
            None => f(n - 1),
        }
    }
}

/// `first_some` is empty only when `f` is, everywhere.
pub proof fn first_some_empty<T>(n: nat, f: spec_fn(int) -> Option<T>)
    ensures
        first_some(n, f) is None <==> (forall|i: int| 0 <= i < n ==> (#[trigger] f(i)) is None),
    decreases n,
{
    if n > 0 {
        first_some_empty((n - 1) as nat, f);
    }
}

/// What is found stands at one of the indices.
pub proof fn first_some_stands<T>(n: nat, f: spec_fn(int) -> Option<T>) -> (i: int)
    requires
        first_some(n, f) is Some,
    ensures
        0 <= i < n,
        f(i) == first_some(n, f),
    decreases n,
{
    if first_some((n - 1) as nat, f) is Some {
        first_some_stands((n - 1) as nat, f)
    } else {
        n - 1
    }
}

/// A search that has found its value finds the same when it goes on.
pub proof fn first_some_stable<T>(m: nat, n: nat, f: spec_fn(int) -> Option<T>)
    requires
        m <= n,
        first_some(m, f) is Some,
    ensures
        first_some(n, f) == first_some(m, f),
    decreases n,
{
    if m < n {
        first_some_stable(m, (n - 1) as nat, f);
    }
}

/// Beyond the found index, a longer search finds the same.
pub proof fn first_where_stable(m: nat, n: nat, p: spec_fn(int) -> bool)
    requires
        m <= n,
        first_where(m, p) is Some,
    ensures
        first_where(n, p) == first_where(m, p),
    decreases n,
{
    if m < n {
        first_where_stable(m, (n - 1) as nat, p);
    }
}

pub proof fn count_where_monotone(m: nat, n: nat, p: spec_fn(int) -> bool)
    requires
        m <= n,
    ensures
        count_where(m, p) <= count_where(n, p),
    decreases n,
{
    if m < n {
        count_where_monotone(m, (n - 1) as nat, p);
    }
}

/// A count of zero means that nothing satisfies `p`.
pub proof fn count_where_zero(n: nat, p: spec_fn(int) -> bool)
    ensures
        count_where(n, p) == 0 <==> (forall|i: int| 0 <= i < n ==> !#[trigger] p(i)),
    decreases n,
{
    if n > 0 {
        count_where_zero((n - 1) as nat, p);
    }
}

/// A count of at most one means that no two indices satisfy `p`.
pub proof fn count_where_one(n: nat, p: spec_fn(int) -> bool)
    ensures
        count_where(n, p) <= 1 <==> (forall|i: int, j: int|
            0 <= i < j < n ==> !(#[trigger] p(i) && #[trigger] p(j))),
    decreases n,
{
    if n > 0 {
        count_where_one((n - 1) as nat, p);
        count_where_zero((n - 1) as nat, p);
        if p(n - 1) && count_where((n - 1) as nat, p) > 0 {
            let i = choose|i: int| 0 <= i < n - 1 && #[trigger] p(i);
            assert(p(i) && p(n - 1));
        }
    }
}

} // verus!
