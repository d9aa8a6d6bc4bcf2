//! Bubble sort.
use vstd::prelude::*;
use crate::selection::{sorted, swap};

verus! {

/// Sorts by passes that swap neighbours out of order, until a pass swaps none.
pub struct Algo;

impl Algo {
    /// Sorts `vs` in ascending order, keeping its elements.
    pub fn sort(&self, vs: &mut Vec<i64>)
        ensures
            sorted(final(vs)@),
            final(vs)@.to_multiset() == old(vs)@.to_multiset(),
    {
        let n = vs.len();
        if n == 0 {
            return;
        }
        let mut swapped = true;
        let ghost mut passes: int = 0;
        while swapped
            invariant
                n == vs@.len(),
                n >= 1,
                0 <= passes <= n,
                vs@.to_multiset() == old(vs)@.to_multiset(),
                forall|i: int, j: int| 0 <= i < j < n && j >= n - passes ==> vs@[i] <= vs@[j],
                !swapped ==> sorted(vs@),
                swapped ==> passes < n,
            decreases (if swapped { n + 1 - passes } else { 0 }),
        {
            swapped = false;
            let ghost p = passes;
            let mut i: usize = 0;
            while i < n - 1
                invariant
                    n == vs@.len(),
                    n >= 1,
                    0 <= p < n,
                    i <= n - 1,
                    vs@.to_multiset() == old(vs)@.to_multiset(),
                    forall|a: int, b: int| 0 <= a < b < n && b >= n - p ==> vs@[a] <= vs@[b],
                    forall|k: int| 0 <= k <= i ==> vs@[k] <= vs@[i as int],
                    !swapped ==> forall|a: int, b: int| 0 <= a < b <= i ==> vs@[a] <= vs@[b],
                    swapped ==> i > 0 && p < n - 1,
                    i >= n - 1 - p ==> forall|k: int| 0 <= k <= n - 1 - p ==> #[trigger] vs@[k] <= vs@[n - 1 - p],
                decreases n - 1 - i,
            {
                if vs[i] > vs[i + 1] {
                    proof {
                        if i + 1 >= n - p {
                            assert(vs@[i as int] <= vs@[i + 1]);
                        }
                        assert(i < n - 1 - p);
                    }
                    let ghost s = vs@;
                    swap(vs, i, i + 1);
                    proof {
                        assert forall|a: int, b: int| 0 <= a < b < n && b >= n - p implies vs@[a] <= vs@[b] by {
                            assert(b > i + 1 || b < i);
                            if a == i || a == i + 1 {
                                assert(s[i as int] <= s[b] && s[i + 1] <= s[b]);
                            }
                        }
                    }
                    swapped = true;
                }
                i = i + 1;
            }
            proof {
                if swapped {
                    assert(p < n - 1);
                }
                assert forall|a: int, b: int| 0 <= a < b < n && b >= n - (p + 1) implies vs@[a] <= vs@[b] by {
                    if b == n - 1 - p {
                        assert(vs@[a] <= vs@[n - 1 - p]);
                    }
                }
                passes = p + 1;
            }
        }
    }
}

} // verus!
