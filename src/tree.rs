//! The Huffman tree and its greedy construction from a frequency map.
use vstd::prelude::*;
use crate::freq::{count_in, total_in, Freqs};
use crate::symbol::Symbol;

verus! {

/// A Huffman tree: `Empty` for no symbols, a `Leaf` per symbol, and `Fork`s
/// that own two subtrees and carry the sum of their frequencies.
#[derive(Debug, PartialEq, Eq)]
pub enum Tree<T> {
    Empty,
    Leaf { freq: u64, data: T },
    Fork { freq: u64, children: (Box<Tree<T>>, Box<Tree<T>>) },
}

impl<T: View> Tree<T> {
    /// The frequency carried by the root, zero for `Empty`.
    pub open spec fn sfreq(self) -> nat {
        match self {
            Tree::Empty => 0,
            Tree::Leaf { freq, .. } => freq as nat,
            Tree::Fork { freq, .. } => freq as nat,
        }
    }

    /// Each fork carries the sum of its children's frequencies, and no child is empty.
    pub open spec fn wf(self) -> bool
        decreases self,
    {
        match self {
            Tree::Empty => true,
            Tree::Leaf { .. } => true,
            Tree::Fork { freq, children } => {
                &&& freq == children.0.sfreq() + children.1.sfreq()
                &&& !(*children.0 is Empty)
                &&& !(*children.1 is Empty)
                &&& children.0.wf()
                &&& children.1.wf()
            },
        }
    }

    /// The number of leaves.
    pub open spec fn nleaves(self) -> nat
        decreases self,
    {
        match self {
            Tree::Empty => 0,
            Tree::Leaf { .. } => 1,
            Tree::Fork { children, .. } => children.0.nleaves() + children.1.nleaves(),
        }
    }

    /// The length of the longest path from the root to a leaf.
    pub open spec fn height(self) -> nat
        decreases self,
    {
        match self {
            Tree::Empty => 0,
            Tree::Leaf { .. } => 0,
            Tree::Fork { children, .. } => 1 + if children.0.height() >= children.1.height() {
                children.0.height()
            } else {
                children.1.height()
            },
        }
    }

    /// The sum of the frequencies of all leaves.
    pub open spec fn leaf_sum(self) -> nat
        decreases self,
    {
        match self {
            Tree::Empty => 0,
            Tree::Leaf { freq, .. } => freq as nat,
            Tree::Fork { children, .. } => children.0.leaf_sum() + children.1.leaf_sum(),
        }
    }

    /// The sum of the frequencies of the leaves that hold `k`.
    pub open spec fn weight(self, k: T::V) -> nat
        decreases self,
    {
        match self {
            Tree::Empty => 0,
            Tree::Leaf { freq, data } => if data@ == k { freq as nat } else { 0 },
            Tree::Fork { children, .. } => children.0.weight(k) + children.1.weight(k),
        }
    }

    /// The number of leaves that hold `k`.
    pub open spec fn leaf_count(self, k: T::V) -> nat
        decreases self,
    {
        match self {
            Tree::Empty => 0,
            Tree::Leaf { data, .. } => if data@ == k { 1nat } else { 0 },
            Tree::Fork { children, .. } => children.0.leaf_count(k) + children.1.leaf_count(k),
        }
    }

    /// The symbol and frequency of the leaf reached from the root along
    /// `path` (`false` to the left, `true` to the right).
    pub open spec fn leaf_at(self, path: Seq<bool>) -> Option<(T::V, u64)>
        decreases path.len(),
    {
        match self {
            Tree::Empty => None,
            Tree::Leaf { freq, data } => if path.len() == 0 { Some((data@, freq)) } else { None },
            Tree::Fork { children, .. } => if path.len() == 0 {
                None
            } else if path[0] {
                children.1.leaf_at(path.drop_first())
            } else {
                children.0.leaf_at(path.drop_first())
            },
        }
    }
}

impl<T: Symbol> Tree<T> {
    /// The symbol of a leaf.
    pub fn data(&self) -> (r: Option<T>)
        ensures
            self is Leaf ==> r is Some && r->0@ == self->Leaf_data@,
            !(self is Leaf) ==> r is None,
    {
        match self {
            Tree::Leaf { data, .. } => Some(data.dup()),
            _ => None,
        }
    }

    /// The frequency of the root.
    pub fn freq(&self) -> (r: u64)
        ensures
            r == self.sfreq(),
    {
        match self {
            Tree::Leaf { freq, .. } => *freq,
            Tree::Fork { freq, .. } => *freq,
            _ => 0,
        }
    }

    /// The left child of a fork.
    pub fn l(&self) -> (r: Option<&Tree<T>>)
        ensures
            self is Fork ==> r == Some(&*self->Fork_children.0),
            !(self is Fork) ==> r is None,
    {
        match self {
            Tree::Fork { children, .. } => Some(&*children.0),
            _ => None,
        }
    }

    /// The right child of a fork.
    pub fn r(&self) -> (r: Option<&Tree<T>>)
        ensures
            self is Fork ==> r == Some(&*self->Fork_children.1),
            !(self is Fork) ==> r is None,
    {
        match self {
            Tree::Fork { children, .. } => Some(&*children.1),
            _ => None,
        }
    }
}

/// The sum of the root frequencies of a forest.
pub open spec fn forest_freq<T: View>(q: Seq<Tree<T>>) -> nat
    decreases q.len(),
{
    if q.len() == 0 { 0 } else { forest_freq(q.drop_last()) + q.last().sfreq() }
}

/// The sum of the leaf frequencies of a forest.
pub open spec fn forest_leaf_sum<T: View>(q: Seq<Tree<T>>) -> nat
    decreases q.len(),
{
    if q.len() == 0 { 0 } else { forest_leaf_sum(q.drop_last()) + q.last().leaf_sum() }
}

/// The sum over a forest of the weights of `k`.
pub open spec fn forest_weight<T: View>(q: Seq<Tree<T>>, k: T::V) -> nat
    decreases q.len(),
{
    if q.len() == 0 { 0 } else { forest_weight(q.drop_last(), k) + q.last().weight(k) }
}

/// The number of leaves of a forest that hold `k`.
pub open spec fn forest_leaves<T: View>(q: Seq<Tree<T>>, k: T::V) -> nat
    decreases q.len(),
{
    if q.len() == 0 { 0 } else { forest_leaves(q.drop_last(), k) + q.last().leaf_count(k) }
}

/// The number of leaves of a forest.
pub open spec fn forest_nleaves<T: View>(q: Seq<Tree<T>>) -> nat
    decreases q.len(),
{
    if q.len() == 0 { 0 } else { forest_nleaves(q.drop_last()) + q.last().nleaves() }
}

/// A well-formed tree that is not empty is shallower than its number of leaves.
pub proof fn lemma_height_lt_leaves<T: View>(t: Tree<T>)
    requires
        t.wf(),
        !(t is Empty),
    ensures
        t.height() < t.nleaves(),
    decreases t,
{
    if let Tree::Fork { children, .. } = t {
        lemma_height_lt_leaves(*children.0);
        lemma_height_lt_leaves(*children.1);
    }
}

proof fn lemma_forest_remove<T: View>(q: Seq<Tree<T>>, i: int, k: T::V)
    requires
        0 <= i < q.len(),
    ensures
        forest_freq(q) == forest_freq(q.remove(i)) + q[i].sfreq(),
        forest_nleaves(q) == forest_nleaves(q.remove(i)) + q[i].nleaves(),
        forest_leaf_sum(q) == forest_leaf_sum(q.remove(i)) + q[i].leaf_sum(),
        forest_weight(q, k) == forest_weight(q.remove(i), k) + q[i].weight(k),
        forest_leaves(q, k) == forest_leaves(q.remove(i), k) + q[i].leaf_count(k),
    decreases q.len(),
{
    if i == q.len() - 1 {
        assert(q.remove(i) =~= q.drop_last());
    } else {
        assert(q.remove(i).drop_last() =~= q.drop_last().remove(i));
        assert(q.remove(i).last() == q.last());
        lemma_forest_remove(q.drop_last(), i, k);
    }
}

proof fn lemma_forest_push<T: View>(q: Seq<Tree<T>>, t: Tree<T>, k: T::V)
    ensures
        forest_freq(q.push(t)) == forest_freq(q) + t.sfreq(),
        forest_nleaves(q.push(t)) == forest_nleaves(q) + t.nleaves(),
        forest_leaf_sum(q.push(t)) == forest_leaf_sum(q) + t.leaf_sum(),
        forest_weight(q.push(t), k) == forest_weight(q, k) + t.weight(k),
        forest_leaves(q.push(t), k) == forest_leaves(q, k) + t.leaf_count(k),
{
    assert(q.push(t).drop_last() =~= q);
}

proof fn lemma_forest_single<T: View>(q: Seq<Tree<T>>, k: T::V)
    requires
        q.len() == 1,
    ensures
        forest_freq(q) == q[0].sfreq(),
        forest_nleaves(q) == q[0].nleaves(),
        forest_leaf_sum(q) == q[0].leaf_sum(),
        forest_weight(q, k) == q[0].weight(k),
        forest_leaves(q, k) == q[0].leaf_count(k),
{
    assert(q.drop_last() =~= Seq::<Tree<T>>::empty());
    assert(q.last() == q[0]);
    assert(forest_freq(q.drop_last()) == 0);
    assert(forest_nleaves(q.drop_last()) == 0);
    assert(forest_leaf_sum(q.drop_last()) == 0);
    assert(forest_weight(q.drop_last(), k) == 0);
    assert(forest_leaves(q.drop_last(), k) == 0);
}

/// `i` is the first index of a tree of least frequency in `q`.
pub open spec fn is_first_min<T: View>(q: Seq<Tree<T>>, i: int) -> bool {
    &&& 0 <= i < q.len()
    &&& forall|j: int| 0 <= j < q.len() ==> q[i].sfreq() <= #[trigger] q[j].sfreq()
    &&& forall|j: int| 0 <= j < i ==> q[i].sfreq() < #[trigger] q[j].sfreq()
}

/// The first index of a tree of least frequency.
pub open spec fn first_min<T: View>(q: Seq<Tree<T>>) -> int {
    choose|i: int| is_first_min(q, i)
}

/// The greedy Huffman construction on a forest: while two or more trees are
/// left, the first tree of least frequency and then the first tree of least
/// frequency among the others are removed and joined, in that order, under a
/// fork that goes to the end of the forest.
pub open spec fn huffman<T: View>(q: Seq<Tree<T>>) -> Tree<T>
    decreases q.len(),
{
    if q.len() == 0 {
        Tree::Empty
    } else if q.len() == 1 {
        q[0]
    } else {
        let i = first_min(q);
        let q1 = q.remove(i);
        let j = first_min(q1);
        if is_first_min(q, i) && is_first_min(q1, j) {
            let a = q[i];
            let b = q1[j];
            let fork = Tree::Fork { freq: (a.sfreq() + b.sfreq()) as u64, children: (Box::new(a), Box::new(b)) };
            huffman(q1.remove(j).push(fork))
        } else {
            Tree::Empty
        }
    }
}

/// One leaf per entry, in order.
pub open spec fn leaves_of<T>(keys: Seq<T>, counts: Seq<u64>) -> Seq<Tree<T>> {
    Seq::new(keys.len(), |i: int| Tree::Leaf { freq: counts[i], data: keys[i] })
}

proof fn lemma_first_min<T: View>(q: Seq<Tree<T>>)
    requires
        q.len() > 0,
    ensures
        is_first_min(q, first_min(q)),
        forall|i: int| is_first_min(q, i) ==> i == first_min(q),
    decreases q.len(),
{
    if q.len() == 1 {
        assert(is_first_min(q, 0));
    } else {
        let d = q.drop_last();
        lemma_first_min(d);
        let m = first_min(d);
        let n = q.len() - 1;
        assert forall|j: int| 0 <= j < d.len() implies #[trigger] q[j] == d[j] by {}
        if q.last().sfreq() < q[m].sfreq() {
            assert forall|j: int| 0 <= j < q.len() implies q[n].sfreq() <= #[trigger] q[j].sfreq() by {
                if j < n {
                    assert(d[m].sfreq() <= d[j].sfreq());
                }
            }
            assert forall|j: int| 0 <= j < n implies q[n].sfreq() < #[trigger] q[j].sfreq() by {
                assert(d[m].sfreq() <= d[j].sfreq());
            }
            assert(is_first_min(q, n));
        } else {
            assert forall|j: int| 0 <= j < q.len() implies q[m].sfreq() <= #[trigger] q[j].sfreq() by {
                if j < n {
                    assert(d[m].sfreq() <= d[j].sfreq());
                }
            }
            assert forall|j: int| 0 <= j < m implies q[m].sfreq() < #[trigger] q[j].sfreq() by {
                assert(d[m].sfreq() < d[j].sfreq());
            }
            assert(is_first_min(q, m));
        }
    }
    let f = first_min(q);
    assert forall|i: int| is_first_min(q, i) implies i == f by {
        if i < f {
            assert(q[f].sfreq() < q[i].sfreq());
        } else if i > f {
            assert(q[i].sfreq() < q[f].sfreq());
        }
    }
}

/// The number of entries of `s` with key `k`.
pub open spec fn key_occ<V>(s: Seq<(V, u64)>, k: V) -> nat
    decreases s.len(),
{
    if s.len() == 0 {
        0
    } else {
        key_occ(s.drop_last(), k) + if s.last().0 == k { 1nat } else { 0 }
    }
}

proof fn lemma_key_occ<V>(s: Seq<(V, u64)>, k: V)
    requires
        forall|a: int, b: int| 0 <= a < b < s.len() ==> s[a].0 != s[b].0,
        forall|i: int| 0 <= i < s.len() ==> s[i].1 > 0,
    ensures
        key_occ(s, k) == if count_in(s, k) > 0 { 1nat } else { 0 },
    decreases s.len(),
{
    if s.len() > 0 {
        let d = s.drop_last();
        lemma_key_occ(d, k);
        if s.last().0 == k {
            lemma_key_absent(d, k);
        }
    }
}

proof fn lemma_key_absent<V>(s: Seq<(V, u64)>, k: V)
    requires
        forall|j: int| 0 <= j < s.len() ==> s[j].0 != k,
    ensures
        key_occ(s, k) == 0,
        count_in(s, k) == 0,
    decreases s.len(),
{
    if s.len() > 0 {
        lemma_key_absent(s.drop_last(), k);
    }
}

fn min_index<T: Symbol>(q: &Vec<Tree<T>>) -> (i: usize)
    requires
        q@.len() > 0,
    ensures
        i < q@.len(),
        forall|j: int| 0 <= j < q@.len() ==> q@[i as int].sfreq() <= q@[j].sfreq(),
        i == first_min(q@),
{
    let mut best: usize = 0;
    let mut j: usize = 1;
    while j < q.len()
        invariant
            0 < j <= q@.len(),
            best < j,
            forall|m: int| 0 <= m < j ==> q@[best as int].sfreq() <= q@[m].sfreq(),
            forall|m: int| 0 <= m < best ==> q@[best as int].sfreq() < q@[m].sfreq(),
        decreases q@.len() - j,
    {
        if q[j].freq() < q[best].freq() {
            best = j;
        }
        j = j + 1;
    }
    proof {
        assert(is_first_min(q@, best as int));
        lemma_first_min(q@);
    }
    best
}

/// Builds the Huffman tree of a frequency map: one leaf per symbol, then the
/// two trees of least frequency are joined under a fork until one tree is left.
pub fn mk<T: Symbol>(freqs: &Freqs<T>) -> (r: Tree<T>)
    requires
        freqs.wf(),
        freqs.total() <= u64::MAX,
    ensures
        r.wf(),
        r.sfreq() == freqs.total(),
        r.leaf_sum() == freqs.total(),
        r.nleaves() == freqs.pairs().len(),
        forall|k: T::V| #[trigger] r.weight(k) == freqs.count(k),
        forall|k: T::V| #[trigger] r.leaf_count(k) == if freqs.count(k) > 0 { 1nat } else { 0 },
        r == huffman(leaves_of(freqs.keys@, freqs.counts@)),
        (r is Empty) <==> freqs.pairs().len() == 0,
        freqs.pairs().len() == 1 ==> r is Leaf,
{
    let ghost pairs = freqs.pairs();
    let mut q: Vec<Tree<T>> = Vec::new();
    let n = freqs.len();
    let mut i: usize = 0;
    while i < n
        invariant
            freqs.wf(),
            pairs == freqs.pairs(),
            n == pairs.len(),
            i <= n,
            q@.len() == i,
            forall|j: int| 0 <= j < q@.len() ==> (#[trigger] q@[j]).wf() && !(q@[j] is Empty),
            forall|j: int| 0 <= j < q@.len() ==> (#[trigger] q@[j]) is Leaf,
            q@ == leaves_of(freqs.keys@, freqs.counts@).subrange(0, i as int),
            forest_freq(q@) == total_in(pairs.subrange(0, i as int)),
            forest_nleaves(q@) == i,
            forest_leaf_sum(q@) == total_in(pairs.subrange(0, i as int)),
            forall|k: T::V| #[trigger] forest_weight(q@, k) == count_in(pairs.subrange(0, i as int), k),
            forall|k: T::V| #[trigger] forest_leaves(q@, k) == key_occ(pairs.subrange(0, i as int), k),
        decreases n - i,
    {
        let (t, c) = freqs.entry(i);
        let leaf = Tree::Leaf { freq: c, data: t.dup() };
        proof {
            let s = pairs.subrange(0, i as int);
            assert(pairs.subrange(0, i + 1) =~= s.push(pairs[i as int]));
            assert(s.push(pairs[i as int]).drop_last() =~= s);
            lemma_forest_push(q@, leaf, arbitrary());
            assert forall|k: T::V| #[trigger] forest_weight(q@.push(leaf), k) == count_in(pairs.subrange(0, i + 1), k) by {
                lemma_forest_push(q@, leaf, k);
            }
            assert forall|k: T::V| #[trigger] forest_leaves(q@.push(leaf), k) == key_occ(pairs.subrange(0, i + 1), k) by {
                lemma_forest_push(q@, leaf, k);
            }
        }
        q.push(leaf);
        proof {
            assert(q@ =~= leaves_of(freqs.keys@, freqs.counts@).subrange(0, i + 1));
        }
        i = i + 1;
    }
    let ghost start = q@;
    proof {
        assert(pairs.subrange(0, n as int) =~= pairs);
        assert(start =~= leaves_of(freqs.keys@, freqs.counts@));
    }
    while q.len() > 1
        invariant
            freqs.wf(),
            pairs == freqs.pairs(),
            freqs.total() <= u64::MAX,
            q@.len() >= 1 <==> pairs.len() >= 1,
            pairs.len() == 1 ==> q@.len() == 1 && q@[0] is Leaf,
            forall|j: int| 0 <= j < q@.len() ==> (#[trigger] q@[j]).wf() && !(q@[j] is Empty),
            forest_freq(q@) == freqs.total(),
            forest_nleaves(q@) == pairs.len(),
            forest_leaf_sum(q@) == freqs.total(),
            forall|k: T::V| #[trigger] forest_weight(q@, k) == freqs.count(k),
            forall|k: T::V| #[trigger] forest_leaves(q@, k) == key_occ(pairs, k),
            huffman(q@) == huffman(start),
        decreases q@.len(),
    {
        let ghost q0 = q@;
        let a = min_index(&q);
        let t1 = q.remove(a);
        let ghost q1 = q@;
        let b = min_index(&q);
        let t2 = q.remove(b);
        let ghost q2 = q@;
        proof {
            lemma_forest_remove(q0, a as int, arbitrary());
            lemma_forest_remove(q1, b as int, arbitrary());
        }
        let freq = t1.freq() + t2.freq();
        let fork = Tree::Fork { freq, children: (Box::new(t1), Box::new(t2)) };
        proof {
            lemma_forest_push(q2, fork, arbitrary());
            assert forall|k: T::V| #[trigger] forest_weight(q2.push(fork), k) == freqs.count(k) by {
                lemma_forest_remove(q0, a as int, k);
                lemma_forest_remove(q1, b as int, k);
                lemma_forest_push(q2, fork, k);
            }
            assert forall|k: T::V| #[trigger] forest_leaves(q2.push(fork), k) == key_occ(pairs, k) by {
                lemma_forest_remove(q0, a as int, k);
                lemma_forest_remove(q1, b as int, k);
                lemma_forest_push(q2, fork, k);
            }
        }
        q.push(fork);
        proof {
            lemma_first_min(q0);
            lemma_first_min(q1);
            assert(huffman(q0) == huffman(q@));
        }
    }
    if q.len() == 1 {
        let ghost q0 = q@;
        let r = q.pop().unwrap();
        proof {
            assert(q0[0] == r);
            lemma_forest_single(q0, arbitrary());
            assert forall|k: T::V| #[trigger] r.weight(k) == freqs.count(k) by {
                lemma_forest_single(q0, k);
            }
            assert forall|k: T::V| #[trigger] r.leaf_count(k) == if freqs.count(k) > 0 { 1nat } else { 0 } by {
                lemma_forest_single(q0, k);
                lemma_key_occ(pairs, k);
            }
        }
        r
    } else {
        proof {
            assert forall|k: T::V| #[trigger] freqs.count(k) == 0 by {
                lemma_key_absent(pairs, k);
            }
        }
        Tree::Empty
    }
}

} // verus!
