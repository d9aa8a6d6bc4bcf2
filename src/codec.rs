//! The encoder a tree gives (symbol to code) and the decoder that inverts it.
use vstd::prelude::*;
use bit_vec::BitVec;
use crate::bits::{bits_from, bits_clone, bits_eq, bits_get, bits_len, bits_new, bits_of, bits_push, bits_wf};
use crate::symbol::{views, Symbol};
use crate::tree::{lemma_height_lt_leaves, Tree};

verus! {

/// `a` is a prefix of `b`.
pub open spec fn is_prefix(a: Seq<bool>, b: Seq<bool>) -> bool {
    a.len() <= b.len() && b.subrange(0, a.len() as int) == a
}

/// No code of the table is a prefix of another entry's code.
pub open spec fn prefix_free<V>(s: Seq<(V, Seq<bool>)>) -> bool {
    forall|i: int, j: int|
        0 <= i < s.len() && 0 <= j < s.len() && i != j ==> !is_prefix(#[trigger] s[i].1, #[trigger] s[j].1)
}

/// No symbol has two entries in the table.
pub open spec fn keys_distinct<V, C>(s: Seq<(V, C)>) -> bool {
    forall|i: int, j: int| 0 <= i < s.len() && 0 <= j < s.len() && i != j ==> #[trigger] s[i].0 != #[trigger] s[j].0
}

/// Every code of the table has at least one bit.
pub open spec fn codes_nonempty<V>(s: Seq<(V, Seq<bool>)>) -> bool {
    forall|i: int| 0 <= i < s.len() ==> (#[trigger] s[i]).1.len() > 0
}

/// The codes of the leaves below a node reached along `p`: each leaf's
/// symbol with its path from the root, right subtree first.
pub open spec fn codes_of<T: View>(t: Tree<T>, p: Seq<bool>) -> Seq<(T::V, Seq<bool>)>
    decreases t,
{
    match t {
        Tree::Empty => Seq::empty(),
        Tree::Leaf { data, .. } => seq![(data@, p)],
        Tree::Fork { children, .. } => codes_of(*children.1, p.push(true)) + codes_of(*children.0, p.push(false)),
    }
}

impl<T: View> Tree<T> {
    /// The code table of the tree: the path of each leaf; a lone leaf at the
    /// root gets the one-bit code `false`.
    pub open spec fn code_table(self) -> Seq<(T::V, Seq<bool>)> {
        match self {
            Tree::Leaf { data, .. } => seq![(data@, seq![false])],
            _ => codes_of(self, Seq::empty()),
        }
    }
}

pub proof fn lemma_codes_shape<T: View>(t: Tree<T>, p: Seq<bool>)
    ensures
        forall|i: int| 0 <= i < codes_of(t, p).len() ==> {
            let c = (#[trigger] codes_of(t, p)[i]).1;
            &&& p.len() + (if t is Fork { 1int } else { 0 }) <= c.len()
            &&& c.subrange(0, p.len() as int) == p
        },
    decreases t,
{
    if let Tree::Fork { children, .. } = t {
        let rpath = p.push(true);
        let lpath = p.push(false);
        lemma_codes_shape(*children.1, rpath);
        lemma_codes_shape(*children.0, lpath);
        let a = codes_of(*children.1, rpath);
        let b = codes_of(*children.0, lpath);
        assert forall|i: int| 0 <= i < codes_of(t, p).len() implies {
            let c = (#[trigger] codes_of(t, p)[i]).1;
            &&& p.len() + 1 <= c.len()
            &&& c.subrange(0, p.len() as int) == p
        } by {
            let c = codes_of(t, p)[i].1;
            if i < a.len() {
                assert(c == a[i].1);
                assert(c.subrange(0, rpath.len() as int) == rpath);
                assert(c.subrange(0, p.len() as int) =~= rpath.subrange(0, p.len() as int));
                assert(rpath.subrange(0, p.len() as int) =~= p);
            } else {
                assert(c == b[i - a.len()].1);
                assert(c.subrange(0, lpath.len() as int) == lpath);
                assert(c.subrange(0, p.len() as int) =~= lpath.subrange(0, p.len() as int));
                assert(lpath.subrange(0, p.len() as int) =~= p);
            }
        }
    }
}

proof fn lemma_codes_keys_in<T: View>(t: Tree<T>, p: Seq<bool>)
    ensures
        forall|i: int| 0 <= i < codes_of(t, p).len() ==> t.leaf_count(#[trigger] codes_of(t, p)[i].0) >= 1,
    decreases t,
{
    if let Tree::Fork { children, .. } = t {
        lemma_codes_keys_in(*children.1, p.push(true));
        lemma_codes_keys_in(*children.0, p.push(false));
        let a = codes_of(*children.1, p.push(true));
        let b = codes_of(*children.0, p.push(false));
        assert forall|i: int| 0 <= i < codes_of(t, p).len() implies t.leaf_count(#[trigger] codes_of(t, p)[i].0) >= 1 by {
            if i < a.len() {
                assert(codes_of(t, p)[i] == a[i]);
            } else {
                assert(codes_of(t, p)[i] == b[i - a.len()]);
            }
        }
    }
}

proof fn lemma_codes_distinct<T: View>(t: Tree<T>, p: Seq<bool>)
    requires
        forall|k: T::V| #[trigger] t.leaf_count(k) <= 1,
    ensures
        keys_distinct(codes_of(t, p)),
    decreases t,
{
    if let Tree::Fork { children, .. } = t {
        let r = *children.1;
        let l = *children.0;
        assert forall|k: T::V| #[trigger] r.leaf_count(k) <= 1 by {
            assert(t.leaf_count(k) == l.leaf_count(k) + r.leaf_count(k));
        }
        assert forall|k: T::V| #[trigger] l.leaf_count(k) <= 1 by {
            assert(t.leaf_count(k) == l.leaf_count(k) + r.leaf_count(k));
        }
        lemma_codes_distinct(r, p.push(true));
        lemma_codes_distinct(l, p.push(false));
        lemma_codes_keys_in(r, p.push(true));
        lemma_codes_keys_in(l, p.push(false));
        let a = codes_of(r, p.push(true));
        let b = codes_of(l, p.push(false));
        let s = codes_of(t, p);
        assert forall|i: int, j: int| 0 <= i < s.len() && 0 <= j < s.len() && i != j implies #[trigger] s[i].0 != #[trigger] s[j].0 by {
            if i < a.len() && j >= a.len() {
                assert(s[i] == a[i] && s[j] == b[j - a.len()]);
                assert(t.leaf_count(s[i].0) == l.leaf_count(s[i].0) + r.leaf_count(s[i].0));
            } else if j < a.len() && i >= a.len() {
                assert(s[j] == a[j] && s[i] == b[i - a.len()]);
                assert(t.leaf_count(s[j].0) == l.leaf_count(s[j].0) + r.leaf_count(s[j].0));
            } else if i < a.len() {
                assert(s[i] == a[i] && s[j] == a[j]);
            } else {
                assert(s[i] == b[i - a.len()] && s[j] == b[j - a.len()]);
            }
        }
    }
}

pub(crate) proof fn lemma_codes_prefix_free<T: View>(t: Tree<T>, p: Seq<bool>)
    ensures
        prefix_free(codes_of(t, p)),
    decreases t,
{
    if let Tree::Fork { children, .. } = t {
        let r = *children.1;
        let l = *children.0;
        let rpath = p.push(true);
        let lpath = p.push(false);
        lemma_codes_prefix_free(r, rpath);
        lemma_codes_prefix_free(l, lpath);
        lemma_codes_shape(r, rpath);
        lemma_codes_shape(l, lpath);
        let a = codes_of(r, rpath);
        let b = codes_of(l, lpath);
        let s = codes_of(t, p);
        let n = p.len() as int;
        assert forall|i: int, j: int| 0 <= i < s.len() && 0 <= j < s.len() && i != j implies !is_prefix(#[trigger] s[i].1, #[trigger] s[j].1) by {
            if i < a.len() && j < a.len() {
                assert(s[i] == a[i] && s[j] == a[j]);
            } else if i >= a.len() && j >= a.len() {
                assert(s[i] == b[i - a.len()] && s[j] == b[j - a.len()]);
            } else {
                let ci = s[i].1;
                let cj = s[j].1;
                let (x, y) = if i < a.len() { (rpath, lpath) } else { (lpath, rpath) };
                if i < a.len() {
                    assert(ci == a[i].1 && cj == b[j - a.len()].1);
                } else {
                    assert(ci == b[i - a.len()].1 && cj == a[j].1);
                }
                assert(ci.subrange(0, n + 1) == x);
                assert(cj.subrange(0, n + 1) == y);
                assert(ci[n] == ci.subrange(0, n + 1)[n]);
                assert(cj[n] == cj.subrange(0, n + 1)[n]);
                assert(ci[n] != cj[n]);
                if is_prefix(ci, cj) {
                    assert(cj.subrange(0, ci.len() as int)[n] == cj[n]);
                }
            }
        }
    }
}

/// The entries of two parallel vectors as (symbol, code) pairs.
pub open spec fn entries_of<T: View>(keys: Seq<T>, codes: Seq<BitVec>) -> Seq<(T::V, Seq<bool>)> {
    Seq::new(keys.len(), |i: int| (keys[i]@, bits_of(codes[i])))
}

/// The nodes still to visit, with their paths.
pub open spec fn stack_view<'a, T>(s: Seq<(&'a Tree<T>, BitVec)>) -> Seq<(Tree<T>, Seq<bool>)> {
    Seq::new(s.len(), |i: int| (*s[i].0, bits_of(s[i].1)))
}

/// The codes still to record: those below each node of the stack, top first.
pub open spec fn pending<T: View>(v: Seq<(Tree<T>, Seq<bool>)>) -> Seq<(T::V, Seq<bool>)>
    decreases v.len(),
{
    if v.len() == 0 {
        Seq::empty()
    } else {
        codes_of(v.last().0, v.last().1) + pending(v.drop_last())
    }
}

/// The number of nodes of a tree.
pub open spec fn tree_size<T>(t: Tree<T>) -> nat
    decreases t,
{
    match t {
        Tree::Fork { children, .. } => 1 + tree_size(*children.0) + tree_size(*children.1),
        _ => 1,
    }
}

/// The number of nodes below all nodes of the stack.
pub open spec fn stack_size<T>(v: Seq<(Tree<T>, Seq<bool>)>) -> nat
    decreases v.len(),
{
    if v.len() == 0 {
        0
    } else {
        stack_size(v.drop_last()) + tree_size(v.last().0)
    }
}

proof fn lemma_stack_push<T: View>(v: Seq<(Tree<T>, Seq<bool>)>, e: (Tree<T>, Seq<bool>))
    ensures
        pending(v.push(e)) == codes_of(e.0, e.1) + pending(v),
        stack_size(v.push(e)) == stack_size(v) + tree_size(e.0),
{
    assert(v.push(e).drop_last() =~= v);
}

/// The code table of a tree has one entry per leaf symbol, no code is a
/// prefix of another, and no code is empty.
proof fn lemma_table_wf<T: View>(t: Tree<T>)
    requires
        forall|k: T::V| #[trigger] t.leaf_count(k) <= 1,
    ensures
        keys_distinct(t.code_table()),
        prefix_free(t.code_table()),
        codes_nonempty(t.code_table()),
{
    if !(t is Leaf) {
        lemma_codes_distinct(t, Seq::empty());
        lemma_codes_prefix_free(t, Seq::empty());
        lemma_codes_shape(t, Seq::empty());
        if t is Empty {
            assert(t.code_table().len() == 0);
        }
    } else {
        let c = t.code_table();
        assert(c.len() == 1);
        assert(c[0].1.len() == 1);
    }
}

impl<T: Symbol> Tree<T> {
    /// The encoder of the tree: walks it with an explicit stack and records
    /// the path of each leaf.
    pub fn encoder(&self) -> (r: Enc<T>)
        requires
            self.wf(),
            forall|k: T::V| #[trigger] self.leaf_count(k) <= 1,
            self.nleaves() <= usize::MAX,
        ensures
            r.wf(),
            r.pairs() == self.code_table(),
    {
        proof {
            lemma_table_wf(*self);
        }
        let mut keys: Vec<T> = Vec::new();
        let mut codes: Vec<BitVec> = Vec::new();
        if let Tree::Leaf { data, .. } = self {
            let mut c = bits_new();
            bits_push(&mut c, false);
            keys.push(data.dup());
            codes.push(c);
            let r = Enc { keys, codes };
            proof {
                assert(bits_of(c) =~= seq![false]);
                assert(r.pairs() =~= self.code_table());
            }
            return r;
        }
        proof {
            if !(*self is Empty) {
                lemma_height_lt_leaves(*self);
            }
        }
        let mut stack: Vec<(&Tree<T>, BitVec)> = Vec::new();
        stack.push((self, bits_new()));
        proof {
            assert(stack_view(stack@) =~= Seq::<(Tree<T>, Seq<bool>)>::empty().push((*self, Seq::<bool>::empty())));
            lemma_stack_push(Seq::<(Tree<T>, Seq<bool>)>::empty(), (*self, Seq::<bool>::empty()));
            assert(entries_of(keys@, codes@) + pending(stack_view(stack@)) =~= codes_of(*self, Seq::empty()));
        }
        while stack.len() > 0
            invariant
                keys@.len() == codes@.len(),
                forall|j: int| 0 <= j < codes@.len() ==> bits_wf(#[trigger] codes@[j]),
                forall|i: int| 0 <= i < stack@.len() ==> bits_wf((#[trigger] stack@[i]).1),
                entries_of(keys@, codes@) + pending(stack_view(stack@)) == codes_of(*self, Seq::empty()),
                self.height() < usize::MAX,
                forall|i: int| 0 <= i < stack@.len() ==>
                    bits_of((#[trigger] stack@[i]).1).len() + stack@[i].0.height() <= self.height(),
            decreases stack_size(stack_view(stack@)),
        {
            let ghost s0 = stack@;
            let ghost v = stack_view(stack@);
            let ghost e = entries_of(keys@, codes@);
            let (t, p) = stack.pop().unwrap();
            let ghost rest = stack_view(stack@);
            proof {
                assert(rest =~= v.drop_last());
                assert(v.last() == (*t, bits_of(p)));
            }
            match t {
                Tree::Empty => {
                    proof {
                        assert(e + pending(rest) =~= e + pending(v));
                    }
                },
                Tree::Leaf { data, .. } => {
                    keys.push(data.dup());
                    codes.push(p);
                    proof {
                        assert(entries_of(keys@, codes@) =~= e.push((data@, bits_of(p))));
                        assert(entries_of(keys@, codes@) + pending(rest) =~= e + pending(v));
                    }
                },
                Tree::Fork { children, .. } => {
                    let mut lp = bits_clone(&p);
                    bits_push(&mut lp, false);
                    let mut rp = p;
                    bits_push(&mut rp, true);
                    stack.push((&*children.0, lp));
                    proof {
                        assert(stack_view(stack@) =~= rest.push((*children.0, bits_of(lp))));
                        lemma_stack_push(rest, (*children.0, bits_of(lp)));
                    }
                    let ghost mid = stack_view(stack@);
                    stack.push((&*children.1, rp));
                    proof {
                        assert(stack_view(stack@) =~= mid.push((*children.1, bits_of(rp))));
                        lemma_stack_push(mid, (*children.1, bits_of(rp)));
                        let a = codes_of(*children.1, bits_of(rp));
                        let b = codes_of(*children.0, bits_of(lp));
                        assert(e + (a + (b + pending(rest))) =~= e + ((a + b) + pending(rest)));
                        assert forall|i: int| 0 <= i < stack@.len() implies
                            bits_of((#[trigger] stack@[i]).1).len() + stack@[i].0.height() <= self.height() by {
                            if i == stack@.len() - 1 || i == stack@.len() - 2 {
                            } else {
                                assert(stack@[i] == s0[i]);
                            }
                        }
                    }
                },
            }
            proof {
                lemma_stack_push(rest, (*t, bits_of(p)));
            }
        }
        let r = Enc { keys, codes };
        proof {
            assert(stack_view(stack@) =~= Seq::<(Tree<T>, Seq<bool>)>::empty());
            assert(r.pairs() =~= self.code_table());
        }
        r
    }
}

/// Decodes a bit sequence with a table of (code, symbol) entries: reads the
/// symbol of a non-empty code that starts the bits, then decodes the rest;
/// `None` where no code starts the bits.
pub open spec fn decode<V>(table: Seq<(Seq<bool>, V)>, bits: Seq<bool>) -> Option<Seq<V>>
    decreases bits.len(),
{
    if bits.len() == 0 {
        Some(Seq::empty())
    } else if exists|i: int| 0 <= i < table.len() && table[i].0.len() > 0 && is_prefix(table[i].0, bits) {
        let i = choose|i: int| 0 <= i < table.len() && table[i].0.len() > 0 && is_prefix(table[i].0, bits);
        match decode(table, bits.subrange(table[i].0.len() as int, bits.len() as int)) {
            Some(rest) => Some(seq![table[i].1] + rest),
            None => None,
        }
    } else {
        None
    }
}

/// Two prefixes of one sequence: one is a prefix of the other.
pub proof fn lemma_same_prefix(a: Seq<bool>, b: Seq<bool>, s: Seq<bool>)
    requires
        is_prefix(a, s),
        is_prefix(b, s),
    ensures
        is_prefix(a, b) || is_prefix(b, a),
{
    if a.len() <= b.len() {
        assert(b.subrange(0, a.len() as int) =~= s.subrange(0, a.len() as int));
    } else {
        assert(a.subrange(0, b.len() as int) =~= s.subrange(0, b.len() as int));
    }
}

proof fn lemma_decode_some_concat<V>(table: Seq<(Seq<bool>, V)>, bits: Seq<bool>)
    ensures
        decode(table, bits) == match decode(table, bits) {
            Some(rest) => Some(Seq::<V>::empty() + rest),
            None => None::<Seq<V>>,
        },
{
    if let Some(rest) = decode(table, bits) {
        assert(Seq::<V>::empty() + rest =~= rest);
    }
}

/// `a` is a prefix of `b`.
fn prefix_of(a: &Vec<bool>, b: &Vec<bool>) -> (r: bool)
    ensures
        r == is_prefix(a@, b@),
{
    if a.len() > b.len() {
        return false;
    }
    let mut k: usize = 0;
    while k < a.len()
        invariant
            a@.len() <= b@.len(),
            k <= a@.len(),
            forall|j: int| 0 <= j < k ==> a@[j] == b@[j],
        decreases a@.len() - k,
    {
        if a[k] != b[k] {
            proof {
                if is_prefix(a@, b@) {
                    assert(b@.subrange(0, a@.len() as int)[k as int] == b@[k as int]);
                }
            }
            return false;
        }
        k = k + 1;
    }
    proof {
        assert(b@.subrange(0, a@.len() as int) =~= a@);
    }
    true
}

/// The table of symbols `keys` with codes `codes`, entry by entry.
pub open spec fn table_of<T: View>(keys: Seq<T>, codes: Seq<Vec<bool>>) -> Seq<(T::V, Seq<bool>)> {
    Seq::new(keys.len(), |i: int| (keys[i]@, codes[i]@))
}

/// The symbols and codes make an encoder: as many codes as symbols, no
/// symbol twice, no code empty, too long or a prefix of another.
pub open spec fn valid_table<T: View>(keys: Seq<T>, codes: Seq<Vec<bool>>) -> bool {
    &&& keys.len() == codes.len()
    &&& keys_distinct(table_of(keys, codes))
    &&& prefix_free(table_of(keys, codes))
    &&& codes_nonempty(table_of(keys, codes))
    &&& forall|i: int| 0 <= i < codes.len() ==> (#[trigger] codes[i])@.len() < usize::MAX
}

/// An encoder: each symbol of a tree with its code.
pub struct Enc<T> {
    pub keys: Vec<T>,
    pub codes: Vec<BitVec>,
}

impl<T: Symbol> Enc<T> {
    pub open spec fn pairs(&self) -> Seq<(T::V, Seq<bool>)> {
        entries_of(self.keys@, self.codes@)
    }

    /// One entry per symbol; codes not empty and free of prefixes.
    pub open spec fn wf(&self) -> bool {
        &&& self.keys@.len() == self.codes@.len()
        &&& keys_distinct(self.pairs())
        &&& prefix_free(self.pairs())
        &&& codes_nonempty(self.pairs())
        &&& forall|i: int| 0 <= i < self.codes@.len() ==> bits_wf(#[trigger] self.codes@[i])
    }

    /// `k` has a code.
    pub open spec fn has(&self, k: T::V) -> bool {
        exists|i: int| 0 <= i < self.pairs().len() && self.pairs()[i].0 == k
    }

    /// The code of `k`, where it has one.
    pub open spec fn code(&self, k: T::V) -> Seq<bool> {
        self.pairs()[choose|i: int| 0 <= i < self.pairs().len() && self.pairs()[i].0 == k].1
    }

    /// The number of symbols.
    pub fn len(&self) -> (r: usize)
        requires
            self.wf(),
        ensures
            r == self.pairs().len(),
    {
        self.keys.len()
    }

    /// The encoder with these symbols and codes, where they make one.
    pub fn from_entries(keys: Vec<T>, codes: &Vec<Vec<bool>>) -> (r: Option<Enc<T>>)
        ensures
            r is Some <==> valid_table(keys@, codes@),
            r matches Some(e) ==> e.wf() && e.pairs() == table_of(keys@, codes@),
    {
        let n = keys.len();
        if n != codes.len() {
            return None;
        }
        let ghost t = table_of(keys@, codes@);
        let mut i: usize = 0;
        while i < n
            invariant
                n == keys@.len(),
                n == codes@.len(),
                t == table_of(keys@, codes@),
                i <= n,
                forall|a: int, b: int| 0 <= a < i && 0 <= b < n && a != b ==> #[trigger] t[a].0 != #[trigger] t[b].0,
                forall|a: int, b: int| 0 <= a < i && 0 <= b < n && a != b ==> !is_prefix(#[trigger] t[a].1, #[trigger] t[b].1),
                forall|a: int| 0 <= a < i ==> (#[trigger] t[a]).1.len() > 0,
                forall|a: int| 0 <= a < i ==> (#[trigger] codes@[a])@.len() < usize::MAX,
            decreases n - i,
        {
            if codes[i].len() == 0 || codes[i].len() == usize::MAX {
                proof {
                    assert(t[i as int].1 == codes@[i as int]@);
                    assert(!valid_table(keys@, codes@));
                }
                return None;
            }
            let mut j: usize = 0;
            while j < n
                invariant
                    n == keys@.len(),
                    n == codes@.len(),
                    t == table_of(keys@, codes@),
                    i < n,
                    j <= n,
                    forall|b: int| 0 <= b < j && b != i ==> t[i as int].0 != #[trigger] t[b].0,
                    forall|b: int| 0 <= b < j && b != i ==> !is_prefix(t[i as int].1, #[trigger] t[b].1),
                decreases n - j,
            {
                if j != i {
                    let same_key = keys[i].same(&keys[j]);
                    let prefix = prefix_of(&codes[i], &codes[j]);
                    proof {
                        assert(t[i as int] == (keys@[i as int]@, codes@[i as int]@));
                        assert(t[j as int] == (keys@[j as int]@, codes@[j as int]@));
                    }
                    if same_key {
                        proof {
                            assert(t[i as int].0 == t[j as int].0);
                            assert(!keys_distinct(t));
                        }
                        return None;
                    }
                    if prefix {
                        proof {
                            assert(is_prefix(t[i as int].1, t[j as int].1));
                            assert(!prefix_free(t));
                        }
                        return None;
                    }
                }
                proof {
                    assert(t[i as int] == (keys@[i as int]@, codes@[i as int]@));
                    assert(t[j as int] == (keys@[j as int]@, codes@[j as int]@));
                }
                j = j + 1;
            }
            proof {
                assert(t[i as int] == (keys@[i as int]@, codes@[i as int]@));
            }
            i = i + 1;
        }
        let mut bits: Vec<BitVec> = Vec::new();
        let mut k: usize = 0;
        while k < n
            invariant
                n == codes@.len(),
                k <= n,
                bits@.len() == k,
                forall|a: int| 0 <= a < n ==> (#[trigger] codes@[a])@.len() < usize::MAX,
                forall|a: int| 0 <= a < k ==> bits_of(#[trigger] bits@[a]) == codes@[a]@ && bits_wf(bits@[a]),
            decreases n - k,
        {
            bits.push(bits_from(&codes[k]));
            k = k + 1;
        }
        let e = Enc { keys, codes: bits };
        proof {
            assert(e.pairs() =~= t);
            assert(valid_table(e.keys@, codes@));
        }
        Some(e)
    }

    /// The code of a symbol.
    pub fn get(&self, t: &T) -> (r: Option<&BitVec>)
        requires
            self.wf(),
        ensures
            r is Some <==> self.has(t@),
            r matches Some(b) ==> bits_of(*b) == self.code(t@) && bits_wf(*b),
    {
        let mut i: usize = 0;
        while i < self.keys.len()
            invariant
                self.wf(),
                i <= self.keys@.len(),
                forall|j: int| 0 <= j < i ==> self.keys@[j]@ != t@,
            decreases self.keys@.len() - i,
        {
            if self.keys[i].same(t) {
                proof {
                    let c = choose|j: int| 0 <= j < self.pairs().len() && self.pairs()[j].0 == t@;
                    assert(self.pairs()[i as int].0 == t@);
                    assert(c == i);
                }
                return Some(&self.codes[i]);
            }
            i = i + 1;
        }
        None
    }

    /// The decoder: each code with its symbol.
    pub fn iso(&self) -> (r: Dec<T>)
        requires
            self.wf(),
        ensures
            r.wf(),
            r.inverts(*self),
            r.prefix_code(),
    {
        let mut codes: Vec<BitVec> = Vec::new();
        let mut keys: Vec<T> = Vec::new();
        let mut i: usize = 0;
        while i < self.keys.len()
            invariant
                self.wf(),
                i <= self.keys@.len(),
                codes@.len() == i,
                keys@.len() == i,
                forall|j: int| 0 <= j < i ==> bits_of(#[trigger] codes@[j]) == self.pairs()[j].1 && keys@[j]@ == self.pairs()[j].0,
                forall|j: int| 0 <= j < i ==> bits_wf(#[trigger] codes@[j]),
            decreases self.keys@.len() - i,
        {
            codes.push(bits_clone(&self.codes[i]));
            keys.push(self.keys[i].dup());
            i = i + 1;
        }
        let r = Dec { codes, keys };
        proof {
            assert forall|i: int| 0 <= i < self.pairs().len() implies #[trigger] r.pairs()[i] == (self.pairs()[i].1, self.pairs()[i].0) by {
                assert(bits_of(r.codes@[i]) == self.pairs()[i].1);
            }
            assert forall|a: int, b: int| 0 <= a < r.pairs().len() && 0 <= b < r.pairs().len() && a != b implies #[trigger] r.pairs()[a].0 != #[trigger] r.pairs()[b].0 by {
                assert(r.pairs()[a] == (self.pairs()[a].1, self.pairs()[a].0));
                assert(r.pairs()[b] == (self.pairs()[b].1, self.pairs()[b].0));
                let c = self.pairs()[a].1;
                assert(c.subrange(0, c.len() as int) =~= c);
                assert(!is_prefix(self.pairs()[a].1, self.pairs()[b].1));
            }
            assert forall|a: int, b: int| 0 <= a < r.pairs().len() && 0 <= b < r.pairs().len() && a != b
                implies !is_prefix(#[trigger] r.pairs()[a].0, #[trigger] r.pairs()[b].0) by {
                assert(r.pairs()[a] == (self.pairs()[a].1, self.pairs()[a].0));
                assert(r.pairs()[b] == (self.pairs()[b].1, self.pairs()[b].0));
            }
            assert forall|a: int| 0 <= a < r.pairs().len() implies (#[trigger] r.pairs()[a]).0.len() > 0 by {
                assert(r.pairs()[a] == (self.pairs()[a].1, self.pairs()[a].0));
            }
        }
        r
    }
}

/// A decoder: each code with its symbol.
pub struct Dec<T> {
    pub codes: Vec<BitVec>,
    pub keys: Vec<T>,
}

impl<T: Symbol> Dec<T> {
    pub open spec fn pairs(&self) -> Seq<(Seq<bool>, T::V)> {
        Seq::new(self.codes@.len(), |i: int| (bits_of(self.codes@[i]), self.keys@[i]@))
    }

    /// One entry per code.
    pub open spec fn wf(&self) -> bool {
        &&& self.codes@.len() == self.keys@.len()
        &&& keys_distinct(self.pairs())
        &&& forall|i: int| 0 <= i < self.codes@.len() ==> bits_wf(#[trigger] self.codes@[i])
    }

    /// The entries are those of `enc`, each turned around.
    pub open spec fn inverts(&self, enc: Enc<T>) -> bool {
        &&& self.pairs().len() == enc.pairs().len()
        &&& forall|i: int| 0 <= i < enc.pairs().len() ==> #[trigger] self.pairs()[i] == (enc.pairs()[i].1, enc.pairs()[i].0)
    }

    /// No code is empty or a prefix of another.
    pub open spec fn prefix_code(&self) -> bool {
        &&& forall|a: int, b: int| 0 <= a < self.pairs().len() && 0 <= b < self.pairs().len() && a != b
            ==> !is_prefix(#[trigger] self.pairs()[a].0, #[trigger] self.pairs()[b].0)
        &&& forall|a: int| 0 <= a < self.pairs().len() ==> (#[trigger] self.pairs()[a]).0.len() > 0
    }

    /// `c` is the code of a symbol.
    pub open spec fn has(&self, c: Seq<bool>) -> bool {
        exists|i: int| 0 <= i < self.pairs().len() && self.pairs()[i].0 == c
    }

    /// The symbol of code `c`, where there is one.
    pub open spec fn symbol(&self, c: Seq<bool>) -> T::V {
        self.pairs()[choose|i: int| 0 <= i < self.pairs().len() && self.pairs()[i].0 == c].1
    }

    /// Whether code `i` starts the bits of `bv` from `pos` on.
    fn code_at(&self, i: usize, bv: &BitVec, pos: usize) -> (r: bool)
        requires
            self.wf(),
            bits_wf(*bv),
            i < self.pairs().len(),
            pos <= bits_of(*bv).len(),
        ensures
            r == is_prefix(self.pairs()[i as int].0, bits_of(*bv).subrange(pos as int, bits_of(*bv).len() as int)),
    {
        let code = &self.codes[i];
        let m = bits_len(code);
        let n = bits_len(bv);
        let ghost rest = bits_of(*bv).subrange(pos as int, n as int);
        proof {
            assert(self.pairs()[i as int].0 == bits_of(*code));
        }
        if m > n - pos {
            return false;
        }
        let mut k: usize = 0;
        while k < m
            invariant
                m == bits_of(*code).len(),
                n == bits_of(*bv).len(),
                pos + m <= n,
                k <= m,
                rest == bits_of(*bv).subrange(pos as int, n as int),
                bits_of(*code) == self.pairs()[i as int].0,
                bits_wf(*code),
                bits_wf(*bv),
                forall|j: int| 0 <= j < k ==> bits_of(*code)[j] == rest[j],
            decreases m - k,
        {
            let a = bits_get(code, k);
            let b = bits_get(bv, pos + k);
            if a != b {
                proof {
                    assert(rest[k as int] == bits_of(*bv)[pos + k]);
                    if is_prefix(bits_of(*code), rest) {
                        assert(rest.subrange(0, m as int)[k as int] == rest[k as int]);
                    }
                }
                return false;
            }
            k = k + 1;
        }
        proof {
            assert(rest.subrange(0, m as int) =~= bits_of(*code));
        }
        true
    }

    /// Decodes a bit sequence: the symbols whose codes, one after another,
    /// make it up; `None` where no code starts the rest of the bits.
    pub fn decode(&self, bv: &BitVec) -> (r: Option<Vec<T>>)
        requires
            self.wf(),
            self.prefix_code(),
            bits_wf(*bv),
        ensures
            r is Some <==> decode(self.pairs(), bits_of(*bv)) is Some,
            r matches Some(v) ==> views(v@) == decode(self.pairs(), bits_of(*bv))->0,
    {
        let n = bits_len(bv);
        let ghost bits = bits_of(*bv);
        let ghost table = self.pairs();
        let mut out: Vec<T> = Vec::new();
        let mut pos: usize = 0;
        proof {
            assert(bits.subrange(0, n as int) =~= bits);
            assert(views(out@) =~= Seq::<T::V>::empty());
            lemma_decode_some_concat(table, bits);
        }
        while pos < n
            invariant
                self.wf(),
                self.prefix_code(),
                bits_wf(*bv),
                table == self.pairs(),
                bits == bits_of(*bv),
                n == bits.len(),
                pos <= n,
                decode(table, bits) == match decode(table, bits.subrange(pos as int, n as int)) {
                    Some(rest) => Some(views(out@) + rest),
                    None => None::<Seq<T::V>>,
                },
            decreases n - pos,
        {
            let ghost rest = bits.subrange(pos as int, n as int);
            let mut i: usize = 0;
            let mut found: bool = false;
            while i < self.codes.len() && !found
                invariant
                    self.wf(),
                    bits_wf(*bv),
                    table == self.pairs(),
                    bits == bits_of(*bv),
                    pos <= n,
                    n == bits.len(),
                    rest == bits.subrange(pos as int, n as int),
                    i <= self.codes@.len(),
                    found ==> 0 < i && is_prefix(table[i - 1].0, rest),
                    !found ==> forall|j: int| 0 <= j < i ==> !is_prefix(#[trigger] table[j].0, rest),
                decreases self.codes@.len() - i + (if found { 0int } else { 1int }),
            {
                if self.code_at(i, bv, pos) {
                    found = true;
                }
                i = i + 1;
            }
            if !found {
                proof {
                    assert(!(exists|j: int| 0 <= j < table.len() && table[j].0.len() > 0 && is_prefix(table[j].0, rest)));
                }
                return None;
            }
            let k = i - 1;
            let m = bits_len(&self.codes[k]);
            proof {
                let c = choose|j: int| 0 <= j < table.len() && table[j].0.len() > 0 && is_prefix(table[j].0, rest);
                assert(table[k as int].0.len() > 0);
                lemma_same_prefix(table[c].0, table[k as int].0, rest);
                if c != k {
                    assert(!is_prefix(table[c].0, table[k as int].0));
                    assert(!is_prefix(table[k as int].0, table[c].0));
                }
                assert(c == k);
                assert(rest.subrange(m as int, rest.len() as int) =~= bits.subrange(pos + m, n as int));
                let ghost before = views(out@);
                assert(views(out@.push(self.keys@[k as int])) =~= before.push(table[k as int].1));
                let tail = decode(table, bits.subrange(pos + m, n as int));
                if tail is Some {
                    assert(before + (seq![table[k as int].1] + tail->0) =~= before.push(table[k as int].1) + tail->0);
                }
            }
            out.push(self.keys[k].dup());
            pos = pos + m;
        }
        proof {
            assert(bits.subrange(pos as int, n as int) =~= Seq::<bool>::empty());
            assert(views(out@) + Seq::<T::V>::empty() =~= views(out@));
        }
        Some(out)
    }

    /// The symbol of a code.
    pub fn get(&self, bv: &BitVec) -> (r: Option<&T>)
        requires
            self.wf(),
            bits_wf(*bv),
        ensures
            r is Some <==> self.has(bits_of(*bv)),
            r matches Some(t) ==> t@ == self.symbol(bits_of(*bv)),
    {
        let mut i: usize = 0;
        while i < self.codes.len()
            invariant
                self.wf(),
                bits_wf(*bv),
                i <= self.codes@.len(),
                forall|j: int| 0 <= j < i ==> bits_of(self.codes@[j]) != bits_of(*bv),
            decreases self.codes@.len() - i,
        {
            if bits_eq(&self.codes[i], bv) {
                proof {
                    let c = choose|j: int| 0 <= j < self.pairs().len() && self.pairs()[j].0 == bits_of(*bv);
                    assert(self.pairs()[i as int].0 == bits_of(*bv));
                    assert(c == i);
                }
                return Some(&self.keys[i]);
            }
            i = i + 1;
        }
        proof {
            assert forall|j: int| 0 <= j < self.pairs().len() implies self.pairs()[j].0 != bits_of(*bv) by {
                assert(self.pairs()[j].0 == bits_of(self.codes@[j]));
            }
        }
        None
    }
}

} // verus!
