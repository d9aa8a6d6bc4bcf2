//! Selection sort.
use vstd::prelude::*;

verus! {

broadcast use vstd::seq_lib::group_to_multiset_ensures;

/// `s` is in ascending order.
pub open spec fn sorted(s: Seq<i64>) -> bool {
    forall|i: int, j: int| 0 <= i < j < s.len() ==> s[i] <= s[j]
}

/// Exchanges the elements at `i` and `j`.
pub fn swap(v: &mut Vec<i64>, i: usize, j: usize)
    requires
        i < old(v)@.len(),
        j < old(v)@.len(),
    ensures
        final(v)@ == old(v)@.update(i as int, old(v)@[j as int]).update(j as int, old(v)@[i as int]),
        final(v)@.to_multiset() == old(v)@.to_multiset(),
{
    let a = v[i];
    let b = v[j];
    let ghost s = v@;
    v.set(i, b);
    v.set(j, a);
    proof {
        let s1 = s.update(i as int, b);
        assert(s1.to_multiset() =~= s.to_multiset().insert(b).remove(a));
        assert(v@.to_multiset() =~= s1.to_multiset().insert(a).remove(s1[j as int]));
        assert(v@.to_multiset() =~= s.to_multiset());
    }
}

/// Sorts by repeatedly moving the least element of the unsorted rest to its front.
pub struct Algo;

impl Algo {
    /// Sorts `vs` in ascending order, keeping its elements.
    pub fn sort(&self, vs: &mut Vec<i64>)
        ensures
            sorted(final(vs)@),
            final(vs)@.to_multiset() == old(vs)@.to_multiset(),
    {
        let n = vs.len();
        let mut unsorted: usize = 0;
        while unsorted < n
            invariant
                n == vs@.len(),
                unsorted <= n,
                vs@.to_multiset() == old(vs)@.to_multiset(),
                forall|i: int, j: int| 0 <= i < j < unsorted ==> vs@[i] <= vs@[j],
                forall|i: int, j: int| 0 <= i < unsorted <= j < n ==> vs@[i] <= vs@[j],
            decreases n - unsorted,
        {
            let mut smallest = unsorted;
            let mut k = unsorted + 1;
            while k < n
                invariant
                    n == vs@.len(),
                    unsorted <= smallest < n,
                    unsorted < k <= n,
                    forall|m: int| unsorted <= m < k ==> vs@[smallest as int] <= vs@[m],
                decreases n - k,
            {
                if vs[k] < vs[smallest] {
                    smallest = k;
                }
                k = k + 1;
            }
            if unsorted != smallest {
                swap(vs, unsorted, smallest);
            }
            unsorted = unsorted + 1;
        }
    }
}

} // verus!
