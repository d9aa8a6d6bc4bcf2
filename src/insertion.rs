//! Insertion sort.
use vstd::prelude::*;
use crate::selection::sorted;

verus! {

broadcast use vstd::seq_lib::group_to_multiset_ensures;

/// Sorts by inserting each element into the sorted prefix before it, at a
/// place found by binary search.
pub struct Algo;

/// A place in the sorted prefix `v[..end]` where `x` keeps it sorted.
fn insertion_point(v: &Vec<i64>, end: usize, x: i64) -> (r: usize)
    requires
        end <= v@.len(),
        forall|i: int, j: int| 0 <= i < j < end ==> v@[i] <= v@[j],
    ensures
        r <= end,
        forall|i: int| 0 <= i < r ==> v@[i] <= x,
        forall|i: int| r <= i < end ==> x <= v@[i],
{
    let mut lo: usize = 0;
    let mut hi: usize = end;
    while lo < hi
        invariant
            lo <= hi <= end <= v@.len(),
            forall|i: int, j: int| 0 <= i < j < end ==> v@[i] <= v@[j],
            forall|i: int| 0 <= i < lo ==> v@[i] <= x,
            forall|i: int| hi <= i < end ==> x <= v@[i],
        decreases hi - lo,
    {
        let mid = lo + (hi - lo) / 2;
        if v[mid] == x {
            return mid;
        } else if v[mid] < x {
            lo = mid + 1;
        } else {
            hi = mid;
        }
    }
    lo
}

impl Algo {
    /// Sorts `vs` in ascending order, keeping its elements.
    pub fn sort(&self, vs: &mut Vec<i64>)
        ensures
            sorted(final(vs)@),
            final(vs)@.to_multiset() == old(vs)@.to_multiset(),
    {
        let n = vs.len();
        let mut unsort: usize = 1;
        if n == 0 {
            return;
        }
        while unsort < n
            invariant
                n == vs@.len(),
                1 <= unsort <= n,
                vs@.to_multiset() == old(vs)@.to_multiset(),
                forall|i: int, j: int| 0 <= i < j < unsort ==> vs@[i] <= vs@[j],
            decreases n - unsort,
        {
            let x = vs[unsort];
            let pos = insertion_point(vs, unsort, x);
            let ghost s = vs@;
            let y = vs.remove(unsort);
            let ghost s1 = vs@;
            vs.insert(pos, y);
            proof {
                assert(s1.to_multiset() == s.to_multiset().remove(x));
                assert(vs@.to_multiset() == s1.to_multiset().insert(x));
                assert(vs@.to_multiset() =~= s.to_multiset());
                assert forall|i: int, j: int| 0 <= i < j < unsort + 1 implies vs@[i] <= vs@[j] by {
                    if j < pos {
                        assert(vs@[i] == s[i] && vs@[j] == s[j]);
                    } else if j == pos {
                        assert(vs@[i] == s[i]);
                    } else if i < pos {
                        assert(vs@[i] == s[i] && vs@[j] == s[j - 1]);
                    } else if i == pos {
                        assert(vs@[j] == s[j - 1]);
                    } else {
                        assert(vs@[i] == s[i - 1] && vs@[j] == s[j - 1]);
                    }
                }
            }
            unsort = unsort + 1;
        }
    }
}

} // verus!
