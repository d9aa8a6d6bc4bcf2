//! Frequency analysis: how often each symbol occurs in a corpus of lines.
use vstd::prelude::*;
use crate::symbol::{views, Chars, Symbol, Tokenizer, Words};
use rayon::iter::{IntoParallelRefIterator, ParallelIterator};

verus! {

/// The sum of the counts that `s` gives to `k`.
pub open spec fn count_in<V>(s: Seq<(V, u64)>, k: V) -> nat
    decreases s.len(),
{
    if s.len() == 0 {
        0
    } else {
        count_in(s.drop_last(), k) + if s.last().0 == k { s.last().1 as nat } else { 0 }
    }
}

/// The sum of all counts of `s`.
pub open spec fn total_in<V>(s: Seq<(V, u64)>) -> nat
    decreases s.len(),
{
    if s.len() == 0 {
        0
    } else {
        total_in(s.drop_last()) + s.last().1 as nat
    }
}

/// The number of occurrences of `k` in `s`.
pub open spec fn occ<V>(s: Seq<V>, k: V) -> nat
    decreases s.len(),
{
    if s.len() == 0 {
        0
    } else {
        occ(s.drop_last(), k) + if s.last() == k { 1nat } else { 0 }
    }
}

/// All symbols of the lines, line after line.
pub open spec fn corpus<T: View, Tok: Tokenizer<T>>(tok: &Tok, lines: Seq<String>) -> Seq<T::V>
    decreases lines.len(),
{
    if lines.len() == 0 {
        Seq::empty()
    } else {
        corpus(tok, lines.drop_last()) + tok.tokens_of(lines.last()@)
    }
}

/// The number of characters of all lines.
pub open spec fn total_chars(lines: Seq<String>) -> nat
    decreases lines.len(),
{
    if lines.len() == 0 {
        0
    } else {
        total_chars(lines.drop_last()) + lines.last()@.len()
    }
}

pub proof fn lemma_occ_concat<V>(a: Seq<V>, b: Seq<V>, k: V)
    ensures
        occ(a + b, k) == occ(a, k) + occ(b, k),
    decreases b.len(),
{
    if b.len() > 0 {
        assert((a + b).drop_last() =~= a + b.drop_last());
        lemma_occ_concat(a, b.drop_last(), k);
    } else {
        assert(a + b =~= a);
    }
}

/// The symbols of a corpus split between two parts of its lines.
pub proof fn lemma_corpus_split<T: View, Tok: Tokenizer<T>>(tok: &Tok, lines: Seq<String>, i: int)
    requires
        0 <= i <= lines.len(),
    ensures
        corpus(tok, lines) == corpus(tok, lines.subrange(0, i)) + corpus(tok, lines.subrange(i, lines.len() as int)),
    decreases lines.len(),
{
    if i == lines.len() {
        assert(lines.subrange(0, i) =~= lines);
        assert(lines.subrange(i, lines.len() as int) =~= Seq::<String>::empty());
        assert(corpus(tok, lines) + Seq::<T::V>::empty() =~= corpus(tok, lines));
    } else {
        let l = lines.drop_last();
        lemma_corpus_split(tok, l, i);
        assert(l.subrange(0, i) =~= lines.subrange(0, i));
        assert(lines.subrange(i, lines.len() as int).drop_last() =~= l.subrange(i, l.len() as int));
        assert(lines.subrange(i, lines.len() as int).last() == lines.last());
        let a = corpus(tok, lines.subrange(0, i));
        let b = corpus(tok, l.subrange(i, l.len() as int));
        let c = tok.tokens_of(lines.last()@);
        assert((a + b) + c =~= a + (b + c));
    }
}

pub proof fn lemma_corpus_len<T: View, Tok: Tokenizer<T>>(tok: &Tok, lines: Seq<String>)
    ensures
        corpus(tok, lines).len() <= total_chars(lines),
    decreases lines.len(),
{
    if lines.len() > 0 {
        lemma_corpus_len(tok, lines.drop_last());
        tok.lemma_tokens_len(lines.last()@);
    }
}

proof fn lemma_count_push<V>(s: Seq<(V, u64)>, e: (V, u64), k: V)
    ensures
        count_in(s.push(e), k) == count_in(s, k) + if e.0 == k { e.1 as nat } else { 0 },
        total_in(s.push(e)) == total_in(s) + e.1,
{
    assert(s.push(e).drop_last() =~= s);
}

proof fn lemma_count_update<V>(s: Seq<(V, u64)>, i: int, v: u64, k: V)
    requires
        0 <= i < s.len(),
    ensures
        count_in(s.update(i, (s[i].0, v)), k) + (if s[i].0 == k { s[i].1 as nat } else { 0 })
            == count_in(s, k) + (if s[i].0 == k { v as nat } else { 0 }),
        total_in(s.update(i, (s[i].0, v))) + s[i].1 == total_in(s) + v,
    decreases s.len(),
{
    let u = s.update(i, (s[i].0, v));
    if i == s.len() - 1 {
        assert(u.drop_last() =~= s.drop_last());
    } else {
        assert(u.drop_last() =~= s.drop_last().update(i, (s[i].0, v)));
        lemma_count_update(s.drop_last(), i, v, k);
    }
}

proof fn lemma_count_absent<V>(s: Seq<(V, u64)>, k: V)
    requires
        forall|j: int| 0 <= j < s.len() ==> s[j].0 != k,
    ensures
        count_in(s, k) == 0,
    decreases s.len(),
{
    if s.len() > 0 {
        lemma_count_absent(s.drop_last(), k);
    }
}

proof fn lemma_count_at<V>(s: Seq<(V, u64)>, i: int)
    requires
        0 <= i < s.len(),
        forall|a: int, b: int| 0 <= a < b < s.len() ==> s[a].0 != s[b].0,
    ensures
        count_in(s, s[i].0) == s[i].1,
    decreases s.len(),
{
    if i == s.len() - 1 {
        lemma_count_absent(s.drop_last(), s[i].0);
    } else {
        lemma_count_at(s.drop_last(), i);
    }
}

proof fn lemma_entry_le_total<V>(s: Seq<(V, u64)>, i: int)
    requires
        0 <= i < s.len(),
    ensures
        s[i].1 <= total_in(s),
    decreases s.len(),
{
    if i < s.len() - 1 {
        lemma_entry_le_total(s.drop_last(), i);
    }
}

/// A frequency map: each symbol that occurs, once, with its count.
pub struct Freqs<T> {
    pub keys: Vec<T>,
    pub counts: Vec<u64>,
}

impl<T: Symbol> Freqs<T> {
    /// The entries as (symbol, count) pairs, in the order of insertion.
    pub open spec fn pairs(&self) -> Seq<(T::V, u64)> {
        Seq::new(self.keys@.len(), |i: int| (self.keys@[i]@, self.counts@[i]))
    }

    /// The count of `k`, zero where it does not occur.
    pub open spec fn count(&self, k: T::V) -> nat {
        count_in(self.pairs(), k)
    }

    /// The sum of all counts.
    pub open spec fn total(&self) -> nat {
        total_in(self.pairs())
    }

    /// Keys unique, every count positive.
    pub open spec fn wf(&self) -> bool {
        &&& self.keys@.len() == self.counts@.len()
        &&& forall|a: int, b: int| 0 <= a < b < self.keys@.len() ==> self.keys@[a]@ != self.keys@[b]@
        &&& forall|i: int| 0 <= i < self.counts@.len() ==> self.counts@[i] > 0
    }

    /// The symbols that the map holds.
    pub open spec fn key_set(&self) -> Set<T::V> {
        Set::new(|k: T::V| exists|i: int| 0 <= i < self.keys@.len() && #[trigger] self.keys@[i]@ == k)
    }

    /// In a well-formed map, a symbol is a key exactly when its count is positive.
    pub proof fn lemma_key_iff_count(&self, k: T::V)
        requires
            self.wf(),
        ensures
            self.key_set().contains(k) <==> self.count(k) > 0,
    {
        if self.key_set().contains(k) {
            let i = choose|i: int| 0 <= i < self.keys@.len() && #[trigger] self.keys@[i]@ == k;
            assert(self.pairs()[i].0 == k);
            lemma_count_at(self.pairs(), i);
        } else {
            assert forall|j: int| 0 <= j < self.pairs().len() implies self.pairs()[j].0 != k by {
                if self.pairs()[j].0 == k {
                    assert(self.keys@[j]@ == k);
                }
            }
            lemma_count_absent(self.pairs(), k);
        }
    }

    /// An empty map.
    pub fn new() -> (r: Self)
        ensures
            r.wf(),
            r.pairs() == Seq::<(T::V, u64)>::empty(),
            forall|k: T::V| r.count(k) == 0,
            r.total() == 0,
    {
        let r = Freqs { keys: Vec::new(), counts: Vec::new() };
        assert(r.pairs() =~= Seq::<(T::V, u64)>::empty());
        r
    }

    /// The number of distinct symbols.
    pub fn len(&self) -> (r: usize)
        requires
            self.wf(),
        ensures
            r == self.pairs().len(),
    {
        self.keys.len()
    }

    /// The symbol and count of entry `i`.
    pub fn entry(&self, i: usize) -> (r: (&T, u64))
        requires
            self.wf(),
            i < self.pairs().len(),
        ensures
            *r.0 == self.keys@[i as int],
            r.1 == self.counts@[i as int],
            r.0@ == self.pairs()[i as int].0,
            r.1 == self.pairs()[i as int].1,
    {
        (&self.keys[i], self.counts[i])
    }

    fn find(&self, t: &T) -> (r: Option<usize>)
        requires
            self.wf(),
        ensures
            r matches Some(i) ==> i < self.keys@.len() && self.keys@[i as int]@ == t@,
            r is None ==> forall|j: int| 0 <= j < self.keys@.len() ==> self.keys@[j]@ != t@,
    {
        let mut i: usize = 0;
        while i < self.keys.len()
            invariant
                self.wf(),
                i <= self.keys@.len(),
                forall|j: int| 0 <= j < i ==> self.keys@[j]@ != t@,
            decreases self.keys@.len() - i,
        {
            if self.keys[i].same(t) {
                return Some(i);
            }
            i = i + 1;
        }
        None
    }

    /// The count of a symbol, `None` where it does not occur.
    pub fn get(&self, t: &T) -> (r: Option<u64>)
        requires
            self.wf(),
        ensures
            self.count(t@) == 0 ==> r is None,
            self.count(t@) > 0 ==> r == Some(self.count(t@) as u64),
    {
        match self.find(t) {
            Some(i) => {
                proof {
                    lemma_count_at(self.pairs(), i as int);
                }
                Some(self.counts[i])
            },
            None => {
                proof {
                    lemma_count_absent(self.pairs(), t@);
                }
                None
            },
        }
    }

    /// Adds `n` occurrences of `t`.
    pub fn add(&mut self, t: &T, n: u64)
        requires
            old(self).wf(),
            n > 0,
            old(self).total() + n <= u64::MAX,
        ensures
            final(self).wf(),
            forall|k: T::V| #[trigger] final(self).count(k) == old(self).count(k) + if k == t@ { n as nat } else { 0 },
            final(self).total() == old(self).total() + n,
    {
        match self.find(t) {
            Some(i) => {
                let ghost s = self.pairs();
                proof {
                    lemma_entry_le_total(s, i as int);
                }
                let v = self.counts[i] + n;
                self.counts.set(i, v);
                proof {
                    assert(self.pairs() =~= s.update(i as int, (s[i as int].0, v)));
                    assert forall|k: T::V| #[trigger] self.count(k) == count_in(s, k) + if k == t@ { n as nat } else { 0 } by {
                        lemma_count_update(s, i as int, v, k);
                    }
                    lemma_count_update(s, i as int, v, t@);
                }
            },
            None => {
                let ghost s = self.pairs();
                self.keys.push(t.dup());
                self.counts.push(n);
                proof {
                    assert(self.pairs() =~= s.push((t@, n)));
                    assert forall|k: T::V| #[trigger] self.count(k) == count_in(s, k) + if k == t@ { n as nat } else { 0 } by {
                        lemma_count_push(s, (t@, n), k);
                    }
                    lemma_count_push(s, (t@, n), t@);
                }
            },
        }
    }

    /// Adds one occurrence of each token.
    pub fn add_tokens(&mut self, tokens: &Vec<T>)
        requires
            old(self).wf(),
            old(self).total() + tokens@.len() <= u64::MAX,
        ensures
            final(self).wf(),
            forall|k: T::V| #[trigger] final(self).count(k) == old(self).count(k) + occ(views(tokens@), k),
            final(self).total() == old(self).total() + tokens@.len(),
    {
        let ghost start = *self;
        let mut i: usize = 0;
        while i < tokens.len()
            invariant
                self.wf(),
                i <= tokens@.len(),
                start.total() + tokens@.len() <= u64::MAX,
                forall|k: T::V| #[trigger] self.count(k) == start.count(k) + occ(views(tokens@.subrange(0, i as int)), k),
                self.total() == start.total() + i,
            decreases tokens@.len() - i,
        {
            proof {
                assert(views(tokens@.subrange(0, i + 1)).drop_last() =~= views(tokens@.subrange(0, i as int)));
            }
            self.add(&tokens[i], 1);
            i = i + 1;
        }
        assert(tokens@.subrange(0, i as int) =~= tokens@);
    }

    /// Adds the symbols of one line.
    pub fn add_line<Tok: Tokenizer<T>>(self, tok: &Tok, line: &String) -> (r: Self)
        requires
            self.wf(),
            self.total() + tok.tokens_of(line@).len() <= u64::MAX,
        ensures
            r.wf(),
            forall|k: T::V| #[trigger] r.count(k) == self.count(k) + occ(tok.tokens_of(line@), k),
            r.total() == self.total() + tok.tokens_of(line@).len(),
    {
        let mut r = self;
        let tokens = tok.tokenize(line.as_str());
        r.add_tokens(&tokens);
        r
    }

    /// The pointwise sum of two frequency maps.
    pub fn merge(self, other: &Freqs<T>) -> (r: Self)
        requires
            self.wf(),
            other.wf(),
            self.total() + other.total() <= u64::MAX,
        ensures
            r.wf(),
            forall|k: T::V| #[trigger] r.count(k) == self.count(k) + other.count(k),
            r.total() == self.total() + other.total(),
    {
        let mut r = self;
        let mut i: usize = 0;
        while i < other.keys.len()
            invariant
                r.wf(),
                other.wf(),
                i <= other.pairs().len(),
                self.total() + other.total() <= u64::MAX,
                forall|k: T::V| #[trigger] r.count(k) == self.count(k) + count_in(other.pairs().subrange(0, i as int), k),
                r.total() == self.total() + total_in(other.pairs().subrange(0, i as int)),
            decreases other.pairs().len() - i,
        {
            let ghost s = other.pairs().subrange(0, i as int);
            proof {
                assert(other.pairs().subrange(0, i + 1) =~= s.push(other.pairs()[i as int]));
                lemma_count_push(s, other.pairs()[i as int], other.pairs()[i as int].0);
                lemma_prefix_total(other.pairs(), i + 1);
            }
            r.add(&other.keys[i], other.counts[i]);
            proof {
                assert forall|k: T::V| #[trigger] r.count(k) == self.count(k) + count_in(other.pairs().subrange(0, i + 1), k) by {
                    lemma_count_push(s, other.pairs()[i as int], k);
                }
            }
            i = i + 1;
        }
        assert(other.pairs().subrange(0, i as int) =~= other.pairs());
        r
    }
}

/// Counts the symbols of the lines, one line after another.
pub fn count<T: Symbol, Tok: Tokenizer<T>>(tok: &Tok, lines: &Vec<String>) -> (r: Freqs<T>)
    requires
        corpus(tok, lines@).len() <= u64::MAX,
    ensures
        r.wf(),
        forall|k: T::V| #[trigger] r.count(k) == occ(corpus(tok, lines@), k),
        r.total() == corpus(tok, lines@).len(),
{
    let mut f = Freqs::new();
    let mut i: usize = 0;
    while i < lines.len()
        invariant
            f.wf(),
            i <= lines@.len(),
            corpus(tok, lines@).len() <= u64::MAX,
            forall|k: T::V| #[trigger] f.count(k) == occ(corpus(tok, lines@.subrange(0, i as int)), k),
            f.total() == corpus(tok, lines@.subrange(0, i as int)).len(),
        decreases lines@.len() - i,
    {
        let ghost before = corpus(tok, lines@.subrange(0, i as int));
        let ghost line = tok.tokens_of(lines@[i as int]@);
        proof {
            let next = lines@.subrange(0, i + 1);
            assert(next.drop_last() =~= lines@.subrange(0, i as int));
            assert(corpus(tok, next) == before + line);
            lemma_corpus_split(tok, lines@, i + 1);
            lemma_corpus_split(tok, next, i as int);
        }
        f = f.add_line(tok, &lines[i]);
        proof {
            assert forall|k: T::V| #[trigger] f.count(k) == occ(before + line, k) by {
                lemma_occ_concat(before, line, k);
            }
        }
        i = i + 1;
    }
    assert(lines@.subrange(0, i as int) =~= lines@);
    f
}

/// Relies on rayon's `par_iter`, `fold` and `reduce`: the lines are split into
/// runs of consecutive lines, each run is folded with `add_line` from an empty
/// map, and the partial maps are combined with `merge`; the result is the
/// pointwise sum of the counts of all lines.
#[verifier::external_body]
pub(crate) fn par_count<T: Symbol + Send, Tok: Tokenizer<T> + Sync>(tok: &Tok, lines: &Vec<String>) -> (r: Freqs<T>)
    requires
        corpus(tok, lines@).len() <= u64::MAX,
    ensures
        r.wf(),
        forall|k: T::V| #[trigger] r.count(k) == occ(corpus(tok, lines@), k),
        r.total() == corpus(tok, lines@).len(),
{
    lines.par_iter().fold(Freqs::new, |f, line| f.add_line(tok, line)).reduce(Freqs::new, |a, b| a.merge(&b))
}

/// Counts the characters of the lines, in parallel.
pub fn chars(lines: &Vec<String>) -> (r: Freqs<char>)
    requires
        total_chars(lines@) <= u64::MAX,
    ensures
        r.wf(),
        forall|k: char| #[trigger] r.count(k) == occ(corpus(&Chars, lines@), k),
        r.total() == corpus(&Chars, lines@).len(),
{
    proof {
        lemma_corpus_len(&Chars, lines@);
    }
    par_count(&Chars, lines)
}

/// Counts the whitespace-separated words of the lines, in parallel.
pub fn words(lines: &Vec<String>) -> (r: Freqs<String>)
    requires
        total_chars(lines@) <= u64::MAX,
    ensures
        r.wf(),
        forall|k: Seq<char>| #[trigger] r.count(k) == occ(corpus(&Words, lines@), k),
        r.total() == corpus(&Words, lines@).len(),
{
    proof {
        lemma_corpus_len(&Words, lines@);
    }
    par_count(&Words, lines)
}

proof fn lemma_prefix_total<V>(s: Seq<(V, u64)>, i: int)
    requires
        0 <= i <= s.len(),
    ensures
        total_in(s.subrange(0, i)) <= total_in(s),
    decreases s.len(),
{
    if i < s.len() {
        assert(s.drop_last().subrange(0, i) =~= s.subrange(0, i));
        lemma_prefix_total(s.drop_last(), i);
    } else {
        assert(s.subrange(0, i) =~= s);
    }
}

} // verus!
