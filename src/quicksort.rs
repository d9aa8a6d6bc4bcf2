//! Quicksort.
use vstd::prelude::*;
use crate::selection::{sorted, swap};

verus! {

broadcast use vstd::seq_lib::group_to_multiset_ensures;

/// Sorts around the first element as pivot, then each side on its own.
pub struct Algo;

/// `b` is `a` with the elements in `lo..hi` rearranged.
pub open spec fn permutes_range(a: Seq<i64>, b: Seq<i64>, lo: int, hi: int) -> bool {
    &&& a.len() == b.len()
    &&& forall|k: int| 0 <= k < a.len() && !(lo <= k < hi) ==> a[k] == b[k]
    &&& a.subrange(lo, hi).to_multiset() == b.subrange(lo, hi).to_multiset()
}

proof fn lemma_swap_permutes(s: Seq<i64>, lo: int, hi: int, i: int, j: int)
    requires
        0 <= lo <= i < hi <= s.len(),
        lo <= j < hi,
    ensures
        permutes_range(s, s.update(i, s[j]).update(j, s[i]), lo, hi),
{
    let t = s.update(i, s[j]).update(j, s[i]);
    let r = s.subrange(lo, hi);
    let r1 = r.update(i - lo, s[j]);
    assert(t.subrange(lo, hi) =~= r1.update(j - lo, s[i]));
    assert(r1.to_multiset() =~= r.to_multiset().insert(s[j]).remove(s[i]));
    assert(r1[j - lo] == s[j]);
    assert(r[i - lo] == s[i]);
    assert(r.contains(s[i]));
    assert(r.to_multiset().count(s[i]) > 0);
    assert(r1.update(j - lo, s[i]).to_multiset() =~= r1.to_multiset().insert(s[i]).remove(r1[j - lo]));
    assert(t.subrange(lo, hi).to_multiset() =~= r.to_multiset());
}

proof fn lemma_permutes_trans(a: Seq<i64>, b: Seq<i64>, c: Seq<i64>, lo: int, hi: int)
    requires
        permutes_range(a, b, lo, hi),
        permutes_range(b, c, lo, hi),
    ensures
        permutes_range(a, c, lo, hi),
{
}

/// Rearranging a part of a range rearranges the range.
proof fn lemma_permutes_widen(a: Seq<i64>, b: Seq<i64>, lo: int, mid_lo: int, mid_hi: int, hi: int)
    requires
        0 <= lo <= mid_lo <= mid_hi <= hi <= a.len(),
        permutes_range(a, b, mid_lo, mid_hi),
    ensures
        permutes_range(a, b, lo, hi),
{
    let x = a.subrange(lo, mid_lo);
    let y = a.subrange(mid_lo, mid_hi);
    let z = a.subrange(mid_hi, hi);
    let y2 = b.subrange(mid_lo, mid_hi);
    assert(a.subrange(lo, hi) =~= x + y + z);
    assert(b.subrange(lo, hi) =~= x + y2 + z);
    vstd::seq_lib::lemma_multiset_commutative(x + y, z);
    vstd::seq_lib::lemma_multiset_commutative(x, y);
    vstd::seq_lib::lemma_multiset_commutative(x + y2, z);
    vstd::seq_lib::lemma_multiset_commutative(x, y2);
}

/// A rearranged range holds only values that the range held before.
proof fn lemma_permutes_bound(a: Seq<i64>, b: Seq<i64>, lo: int, hi: int, k: int)
    requires
        0 <= lo <= k < hi <= a.len(),
        permutes_range(a, b, lo, hi),
    ensures
        exists|m: int| lo <= m < hi && b[k] == a[m],
{
    let x = b[k];
    assert(b.subrange(lo, hi)[k - lo] == x);
    assert(b.subrange(lo, hi).contains(x));
    assert(b.subrange(lo, hi).to_multiset().count(x) > 0);
    assert(a.subrange(lo, hi).to_multiset().count(x) > 0);
    assert(a.subrange(lo, hi).contains(x));
    let m = choose|m: int| 0 <= m < hi - lo && a.subrange(lo, hi)[m] == x;
    assert(a[lo + m] == x);
}

fn sort_range(vs: &mut Vec<i64>, lo: usize, hi: usize)
    requires
        lo <= hi <= old(vs)@.len(),
    ensures
        permutes_range(old(vs)@, final(vs)@, lo as int, hi as int),
        forall|a: int, b: int| lo <= a < b < hi ==> final(vs)@[a] <= final(vs)@[b],
    decreases hi - lo,
{
    if hi - lo <= 1 {
        return;
    }
    let ghost s0 = vs@;
    let pivot = vs[lo];
    let mut store: usize = lo;
    let mut i: usize = lo + 1;
    while i < hi
        invariant
            lo < i <= hi <= vs@.len(),
            lo <= store < i,
            vs@[lo as int] == pivot,
            permutes_range(s0, vs@, lo as int, hi as int),
            forall|k: int| lo < k <= store ==> vs@[k] < pivot,
            forall|k: int| store < k < i ==> vs@[k] >= pivot,
        decreases hi - i,
    {
        if vs[i] < pivot {
            store = store + 1;
            let ghost s = vs@;
            swap(vs, store, i);
            proof {
                lemma_swap_permutes(s, lo as int, hi as int, store as int, i as int);
                lemma_permutes_trans(s0, s, vs@, lo as int, hi as int);
            }
        }
        i = i + 1;
    }
    let ghost s = vs@;
    swap(vs, lo, store);
    proof {
        lemma_swap_permutes(s, lo as int, hi as int, lo as int, store as int);
        lemma_permutes_trans(s0, s, vs@, lo as int, hi as int);
    }
    let ghost s1 = vs@;
    sort_range(vs, lo, store);
    let ghost s2 = vs@;
    sort_range(vs, store + 1, hi);
    proof {
        lemma_permutes_widen(s1, s2, lo as int, lo as int, store as int, hi as int);
        lemma_permutes_widen(s2, vs@, lo as int, store + 1, hi as int, hi as int);
        lemma_permutes_trans(s0, s1, s2, lo as int, hi as int);
        lemma_permutes_trans(s0, s2, vs@, lo as int, hi as int);
        assert(vs@[store as int] == pivot);
        assert forall|k: int| lo <= k < store implies vs@[k] < pivot by {
            lemma_permutes_bound(s1, s2, lo as int, store as int, k);
            let m = choose|m: int| lo <= m < store && s2[k] == s1[m];
            if m == lo {
                assert(s1[lo as int] == s[store as int]);
            }
        }
        assert forall|k: int| store < k < hi implies vs@[k] >= pivot by {
            lemma_permutes_bound(s2, vs@, store + 1, hi as int, k);
        }
    }
}

impl Algo {
    /// Sorts `vs` in ascending order, keeping its elements.
    pub fn sort(&self, vs: &mut Vec<i64>)
        ensures
            sorted(final(vs)@),
            final(vs)@.to_multiset() == old(vs)@.to_multiset(),
    {
        let n = vs.len();
        sort_range(vs, 0, n);
        proof {
            assert(old(vs)@.subrange(0, n as int) =~= old(vs)@);
            assert(vs@.subrange(0, n as int) =~= vs@);
        }
    }
}

} // verus!
