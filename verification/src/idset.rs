//! Finite sets of ranked values, kept as strictly ascending lists.

use vstd::prelude::*;

use crate::ids::{rank_less, Ranked};

verus! {

/// A list whose ranks strictly ascend.
pub open spec fn ascending<K: Ranked>(s: Seq<K>) -> bool {
    forall|i: int, j: int|
        0 <= i < j < s.len() ==> rank_less((#[trigger] s[i]).rank(), (#[trigger] s[j]).rank())
}

pub proof fn ascending_no_duplicates<K: Ranked>(s: Seq<K>)
    requires
        ascending(s),
    ensures
        s.no_duplicates(),
{
    assert forall|i: int, j: int| 0 <= i < s.len() && 0 <= j < s.len() && i != j implies s[i] != s[j] by {
        if i < j {
            assert(rank_less(s[i].rank(), s[j].rank()));
        } else {
            assert(rank_less(s[j].rank(), s[i].rank()));
        }
    }
}

/// Two ascending lists of one set are the same list.
pub proof fn ascending_unique<K: Ranked>(a: Seq<K>, b: Seq<K>)
    requires
        ascending(a),
        ascending(b),
        forall|k: K| a.contains(k) <==> b.contains(k),
    ensures
        a == b,
    decreases a.len(),
{
    if a.len() == 0 {
        if b.len() > 0 {
            assert(b.contains(b[0]));
        }
        assert(a =~= b);
    } else {
        assert(a.contains(a.last()));
        assert(b.len() > 0);
        assert(b.contains(b.last()));
        let x = a.last();
        let y = b.last();
        let jx = choose|j: int| 0 <= j < b.len() && b[j] == x;
        let jy = choose|j: int| 0 <= j < a.len() && a[j] == y;
        assert(jx == b.len() - 1) by {
            if jx < b.len() - 1 {
                assert(rank_less(b[jx].rank(), b[b.len() - 1].rank()));
                if jy < a.len() - 1 {
                    assert(rank_less(a[jy].rank(), a[a.len() - 1].rank()));
                }
            }
        }
        assert(x == y);
        let a1 = a.drop_last();
        let b1 = b.drop_last();
        assert forall|k: K| a1.contains(k) <==> b1.contains(k) by {
            if a1.contains(k) {
                let i = choose|i: int| 0 <= i < a1.len() && a1[i] == k;
                assert(a[i] == k);
                assert(rank_less(a[i].rank(), a[a.len() - 1].rank()));
                assert(a.contains(k));
                let j = choose|j: int| 0 <= j < b.len() && b[j] == k;
                assert(j < b.len() - 1);
                assert(b1[j] == k);
            }
            if b1.contains(k) {
                let i = choose|i: int| 0 <= i < b1.len() && b1[i] == k;
                assert(b[i] == k);
                assert(rank_less(b[i].rank(), b[b.len() - 1].rank()));
                assert(b.contains(k));
                let j = choose|j: int| 0 <= j < a.len() && a[j] == k;
                assert(j < a.len() - 1);
                assert(a1[j] == k);
            }
        }
        ascending_unique(a1, b1);
        assert(a =~= a1.push(x));
        assert(b =~= b1.push(x));
    }
}

/// A set of ranked values. Iteration by index visits the members in ascending order.
#[derive(Debug)]
pub struct IdSet<K: Ranked> {
    items: Vec<K>,
}

impl<K: Ranked> View for IdSet<K> {
    type V = Set<K>;

    open spec fn view(&self) -> Set<K> {
        self.seq().to_set()
    }
}

impl<K: Ranked> IdSet<K> {
    /// The members in ascending order.
    pub closed spec fn seq(&self) -> Seq<K> {
        self.items@
    }

    #[verifier::type_invariant]
    spec fn inv(&self) -> bool {
        ascending(self.items@)
    }

    pub fn new() -> (r: Self)
        ensures
            r@ == Set::<K>::empty(),
            r.seq().len() == 0,
    {
        let r = IdSet { items: Vec::new() };
        assert(r@ =~= Set::<K>::empty());
        r
    }

    pub fn singleton(k: K) -> (r: Self)
        ensures
            r@ == Set::<K>::empty().insert(k),
            r.seq() == seq![k],
    {
        let mut items = Vec::new();
        items.push(k);
        let r = IdSet { items };
        assert(r.seq() =~= seq![k]);
        assert(r@ =~= Set::<K>::empty().insert(k)) by {
            assert(r.seq()[0] == k);
        }
        r
    }

    /// The number of members, with what the ascending listing says of the set.
    pub fn len(&self) -> (n: usize)
        ensures
            n == self.seq().len(),
            n == self@.len(),
            self@.finite(),
            ascending(self.seq()),
            self.seq().no_duplicates(),
    {
        proof {
            use_type_invariant(self);
            ascending_no_duplicates(self.items@);
            self.items@.unique_seq_to_set();
        }
        self.items.len()
    }

    /// The members as an ascending list.
    pub fn to_vec(&self) -> (r: Vec<K>)
        ensures
            r@ == self.seq(),
            ascending(r@),
            r@.to_set() == self@,
    {
        proof {
            use_type_invariant(self);
        }
        let mut items: Vec<K> = Vec::new();
        let n = self.items.len();
        let mut i: usize = 0;
        while i < n
            invariant
                n == self.items@.len(),
                i <= n,
                items@ =~= self.items@.subrange(0, i as int),
            decreases n - i,
        {
            items.push(self.items[i]);
            i = i + 1;
        }
        assert(items@ =~= self.items@);
        items
    }

    pub fn is_empty(&self) -> (r: bool)
        ensures
            r == (self@ == Set::<K>::empty()),
            r == (self.seq().len() == 0),
    {
        proof {
            if self.items@.len() > 0 {
                assert(self@.contains(self.items@[0]));
            } else {
                assert(self@ =~= Set::<K>::empty());
            }
        }
        self.items.len() == 0
    }

    /// The member at position `i` of the ascending listing.
    pub fn at(&self, i: usize) -> (k: K)
        requires
            i < self.seq().len(),
        ensures
            k == self.seq()[i as int],
            self@.contains(k),
    {
        proof {
            assert(self.items@.contains(self.items@[i as int]));
        }
        self.items[i]
    }

    pub fn contains(&self, k: K) -> (r: bool)
        ensures
            r == self@.contains(k),
    {
        let n = self.items.len();
        let mut i: usize = 0;
        while i < n
            invariant
                n == self.items@.len(),
                i <= n,
                forall|j: int| 0 <= j < i ==> self.items@[j] != k,
            decreases n - i,
        {
            if self.items[i].same(k) {
                assert(self.items@.contains(k));
                return true;
            }
            i = i + 1;
        }
        assert(!self.items@.contains(k));
        false
    }

    /// Adds `k`; true when it was not there before.
    pub fn insert(&mut self, k: K) -> (fresh: bool)
        ensures
            final(self)@ == old(self)@.insert(k),
            fresh == !old(self)@.contains(k),
    {
        proof {
            use_type_invariant(&*self);
        }
        let n = self.items.len();
        let mut i: usize = 0;
        while i < n && self.items[i].before(k)
            invariant
                *self == *old(self),
                n == self.items@.len(),
                i <= n,
                forall|j: int| 0 <= j < i ==> rank_less((#[trigger] self.items@[j]).rank(), k.rank()),
            decreases n - i,
        {
            i = i + 1;
        }
        let ghost s0 = self.items@;
        if i < n && self.items[i].same(k) {
            proof {
                assert(s0.contains(s0[i as int]));
                assert(self@ =~= old(self)@.insert(k));
            }
            return false;
        }
        proof {
            assert forall|j: int| i <= j < n implies rank_less(k.rank(), (#[trigger] s0[j]).rank()) by {
                K::rank_injective(s0[i as int], k);
                assert(!rank_less(s0[i as int].rank(), k.rank()));
                assert(rank_less(k.rank(), s0[i as int].rank()));
                if i < j {
                    assert(rank_less(s0[i as int].rank(), s0[j].rank()));
                }
            }
            assert(!s0.contains(k)) by {
                if s0.contains(k) {
                    let j = choose|j: int| 0 <= j < s0.len() && s0[j] == k;
                    if j < i {
                        assert(rank_less(s0[j].rank(), k.rank()));
                    } else {
                        assert(rank_less(k.rank(), s0[j].rank()));
                    }
                }
            }
        }
        let mut items: Vec<K> = Vec::new();
        let mut p: usize = 0;
        while p < i
            invariant
                *self == *old(self),
                self.items@ == s0,
                n == s0.len(),
                p <= i <= n,
                items@ =~= s0.subrange(0, p as int),
            decreases i - p,
        {
            items.push(self.items[p]);
            p = p + 1;
        }
        items.push(k);
        while p < n
            invariant
                *self == *old(self),
                self.items@ == s0,
                n == s0.len(),
                i <= p <= n,
                items@ =~= s0.subrange(0, i as int).push(k) + s0.subrange(i as int, p as int),
            decreases n - p,
        {
            items.push(self.items[p]);
            p = p + 1;
        }
        proof {
            let s1 = items@;
            assert(s1 =~= s0.insert(i as int, k));
            assert forall|a: int, b: int| 0 <= a < b < s1.len() implies rank_less(
                (#[trigger] s1[a]).rank(),
                (#[trigger] s1[b]).rank(),
            ) by {
                if a < i && b > i {
                    assert(s1[a] == s0[a] && s1[b] == s0[b - 1]);
                    assert(rank_less(s0[a].rank(), s0[b - 1].rank()));
                } else if b < i {
                    assert(s1[a] == s0[a] && s1[b] == s0[b]);
                } else if b == i {
                    assert(s1[a] == s0[a]);
                    assert(s1[b] == k);
                } else if a == i {
                    assert(s1[a] == k);
                    assert(s1[b] == s0[b - 1]);
                } else {
                    assert(s1[a] == s0[a - 1] && s1[b] == s0[b - 1]);
                }
            }
            assert forall|x: K| #[trigger] s1.contains(x) <==> (s0.contains(x) || x == k) by {
                if s1.contains(x) {
                    let j = choose|j: int| 0 <= j < s1.len() && s1[j] == x;
                    if j < i {
                        assert(s0[j] == x);
                    } else if j > i {
                        assert(s0[j - 1] == x);
                    }
                }
                if s0.contains(x) {
                    let j = choose|j: int| 0 <= j < s0.len() && s0[j] == x;
                    if j < i {
                        assert(s1[j] == x);
                    } else {
                        assert(s1[j + 1] == x);
                    }
                }
                if x == k {
                    assert(s1[i as int] == k);
                }
            }
        }
        *self = IdSet { items };
        assert(self@ =~= old(self)@.insert(k));
        true
    }

    /// Keeps exactly the members other than `k`.
    pub fn remove(&mut self, k: K)
        ensures
            final(self)@ == old(self)@.remove(k),
    {
        proof {
            use_type_invariant(&*self);
        }
        let n = self.items.len();
        let ghost s0 = self.items@;
        let mut items: Vec<K> = Vec::new();
        let mut i: usize = 0;
        let ghost mut from: Seq<int> = Seq::empty();
        while i < n
            invariant
                *self == *old(self),
                self.items@ == s0,
                ascending(s0),
                n == s0.len(),
                i <= n,
                from.len() == items@.len(),
                forall|a: int| 0 <= a < from.len() ==> 0 <= (#[trigger] from[a]) < i && items@[a] == s0[from[a]],
                forall|a: int, b: int| 0 <= a < b < from.len() ==> from[a] < from[b],
                forall|x: K| #[trigger] items@.contains(x) <==> (x != k && s0.subrange(0, i as int).contains(x)),
            decreases n - i,
        {
            let x = self.items[i];
            let ghost t0 = items@;
            if !x.same(k) {
                items.push(x);
                proof {
                    from = from.push(i as int);
                }
            }
            proof {
                let pre = s0.subrange(0, i as int);
                let post = s0.subrange(0, i as int + 1);
                assert(post =~= pre.push(x));
                assert forall|y: K| #[trigger] items@.contains(y) <==> (y != k && post.contains(y)) by {
                    assert(t0.contains(y) <==> (y != k && pre.contains(y)));
                    if items@.contains(y) {
                        let j = choose|j: int| 0 <= j < items@.len() && items@[j] == y;
                        if j < t0.len() {
                            assert(t0[j] == y);
                        } else {
                            assert(post[i as int] == y);
                        }
                    }
                    if y != k && post.contains(y) {
                        let j = choose|j: int| 0 <= j < post.len() && post[j] == y;
                        if j < i {
                            assert(pre[j] == y);
                            let q = choose|q: int| 0 <= q < t0.len() && t0[q] == y;
                            assert(items@[q] == y);
                        } else {
                            assert(items@[t0.len() as int] == y);
                        }
                    }
                    if pre.contains(y) {
                        let j = choose|j: int| 0 <= j < pre.len() && pre[j] == y;
                        assert(post[j] == y);
                    }
                }
            }
            i = i + 1;
        }
        proof {
            assert(s0.subrange(0, n as int) =~= s0);
            assert forall|a: int, b: int| 0 <= a < b < items@.len() implies rank_less(
                (#[trigger] items@[a]).rank(),
                (#[trigger] items@[b]).rank(),
            ) by {
                assert(from[a] < from[b]);
                assert(items@[a] == s0[from[a]] && items@[b] == s0[from[b]]);
            }
        }
        *self = IdSet { items };
        assert(self@ =~= old(self)@.remove(k));
    }

    /// Adds every member of `other`.
    pub fn extend(&mut self, other: &IdSet<K>)
        ensures
            final(self)@ == old(self)@.union(other@),
    {
        let n = other.len();
        let mut i: usize = 0;
        while i < n
            invariant
                n == other.seq().len(),
                i <= n,
                self@ =~= old(self)@.union(other.seq().subrange(0, i as int).to_set()),
            decreases n - i,
        {
            let k = other.at(i);
            proof {
                let pre = other.seq().subrange(0, i as int);
                assert(other.seq().subrange(0, i as int + 1) =~= pre.push(k));
                assert(pre.push(k).to_set() =~= pre.to_set().insert(k)) by {
                    assert forall|x: K| #[trigger] pre.push(k).contains(x) <==> (pre.contains(x) || x == k) by {
                        if pre.contains(x) {
                            let j = choose|j: int| 0 <= j < pre.len() && pre[j] == x;
                            assert(pre.push(k)[j] == x);
                        }
                        if x == k {
                            assert(pre.push(k)[pre.len() as int] == x);
                        }
                    }
                }
            }
            self.insert(k);
            i = i + 1;
        }
        proof {
            assert(other.seq().subrange(0, n as int) =~= other.seq());
        }
    }

    pub fn is_subset(&self, other: &IdSet<K>) -> (r: bool)
        ensures
            r == self@.subset_of(other@),
    {
        let n = self.len();
        let mut i: usize = 0;
        while i < n
            invariant
                n == self.seq().len(),
                i <= n,
                forall|j: int| 0 <= j < i ==> other@.contains(#[trigger] self.seq()[j]),
            decreases n - i,
        {
            if !other.contains(self.at(i)) {
                assert(self@.contains(self.seq()[i as int]));
                return false;
            }
            i = i + 1;
        }
        true
    }

    pub fn is_disjoint(&self, other: &IdSet<K>) -> (r: bool)
        ensures
            r == self@.disjoint(other@),
    {
        let n = self.len();
        let mut i: usize = 0;
        while i < n
            invariant
                n == self.seq().len(),
                i <= n,
                forall|j: int| 0 <= j < i ==> !other@.contains(#[trigger] self.seq()[j]),
            decreases n - i,
        {
            if other.contains(self.at(i)) {
                assert(self@.contains(self.seq()[i as int]));
                return false;
            }
            i = i + 1;
        }
        true
    }

    pub fn same_members(&self, other: &IdSet<K>) -> (r: bool)
        ensures
            r == (self@ == other@),
    {
        let r = self.is_subset(other) && other.is_subset(self);
        assert(r ==> self@ =~= other@);
        r
    }
}

impl<K: Ranked> Clone for IdSet<K> {
    fn clone(&self) -> (r: Self)
        ensures
            r@ == self@,
            r.seq() == self.seq(),
    {
        IdSet { items: self.to_vec() }
    }
}

} // verus!
