//! Lists of plain values.

use vstd::prelude::*;

verus! {

/// A list with the same elements.
pub fn copy_list<T: Copy>(list: &Vec<T>) -> (r: Vec<T>)
    ensures
        r@ == list@,
{
    let n = list.len();
    let mut r: Vec<T> = Vec::new();
    let mut i: usize = 0;
    while i < n
        invariant
            n == list@.len(),
            i <= n,
            r@ =~= list@.subrange(0, i as int),
        decreases n - i,
    {
        r.push(list[i]);
        i = i + 1;
    }
    assert(r@ =~= list@);
    r
}

} // verus!
