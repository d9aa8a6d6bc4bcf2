//! A character trie that counts the words inserted into it.
use vstd::prelude::*;
use crate::symbol::{Chars, Tokenizer};
use crate::text::string_of;
use crate::lex::{lemma_lex_antisym, lemma_lex_total, lemma_lex_trans, lex_le, str_le};

verus! {

/// A node of the trie: its children sorted by key, the character that leads
/// to it, the word that ends here (if any) and how often it was inserted.
pub struct Node {
    pub children: Vec<Node>,
    pub key: Option<char>,
    pub val: Option<String>,
    pub count: usize,
}

impl Node {
    /// Children keyed by characters in strictly increasing order, each well
    /// formed below its own path; a word that ends here is `path`.
    pub open spec fn wf_at(self, path: Seq<char>) -> bool
        decreases self,
    {
        &&& forall|i: int| 0 <= i < self.children@.len() ==> (#[trigger] self.children@[i]).key is Some
        &&& forall|i: int, j: int| 0 <= i < j < self.children@.len() ==>
            (#[trigger] self.children@[i]).key->0 < (#[trigger] self.children@[j]).key->0
        &&& forall|i: int| 0 <= i < self.children@.len() ==>
            (#[trigger] self.children@[i]).wf_at(path.push(self.children@[i].key->0))
        &&& self.count > 0 ==> self.val is Some
        &&& self.val is Some ==> self.val->0@ == path
    }

    /// The child reached by `c`.
    pub open spec fn has_child(self, c: char) -> bool {
        exists|i: int| 0 <= i < self.children@.len() && self.children@[i].key == Some(c)
    }

    pub open spec fn child(self, c: char) -> Node {
        self.children@[choose|i: int| 0 <= i < self.children@.len() && self.children@[i].key == Some(c)]
    }

    /// How often the word `w`, read from this node, was inserted.
    pub open spec fn count_of(self, w: Seq<char>) -> nat
        decreases w.len(),
    {
        if w.len() == 0 {
            self.count as nat
        } else if self.has_child(w[0]) {
            self.child(w[0]).count_of(w.drop_first())
        } else {
            0
        }
    }

    /// An empty root.
    pub fn new() -> (r: Self)
        ensures
            r.wf_at(Seq::empty()),
            r.key is None,
            forall|w: Seq<char>| #[trigger] r.count_of(w) == 0,
    {
        let r = Node { children: Vec::new(), key: None, val: None, count: 0 };
        proof {
            assert forall|w: Seq<char>| #[trigger] r.count_of(w) == 0 by {
                if w.len() > 0 {
                    assert(!r.has_child(w[0]));
                }
            }
        }
        r
    }

    /// An empty node reached by `c`.
    pub fn with_key(c: char) -> (r: Self)
        ensures
            forall|p: Seq<char>| #[trigger] r.wf_at(p),
            r.key == Some(c),
            r.children@.len() == 0,
            forall|w: Seq<char>| #[trigger] r.count_of(w) == 0,
    {
        let r = Node { children: Vec::new(), key: Some(c), val: None, count: 0 };
        proof {
            assert forall|w: Seq<char>| #[trigger] r.count_of(w) == 0 by {
                if w.len() > 0 {
                    assert(!r.has_child(w[0]));
                }
            }
        }
        r
    }

    /// Where `c` is or would go among the children: `Ok` with its index, or
    /// `Err` with the index before which it would be inserted.
    fn find(&self, c: char) -> (r: Result<usize, usize>)
        requires
            forall|i: int| 0 <= i < self.children@.len() ==> (#[trigger] self.children@[i]).key is Some,
            forall|i: int, j: int| 0 <= i < j < self.children@.len() ==>
                (#[trigger] self.children@[i]).key->0 < (#[trigger] self.children@[j]).key->0,
        ensures
            r matches Ok(i) ==> i < self.children@.len() && self.children@[i as int].key == Some(c),
            r matches Err(i) ==> i <= self.children@.len()
                && (forall|j: int| 0 <= j < i ==> (#[trigger] self.children@[j]).key->0 < c)
                && (forall|j: int| i <= j < self.children@.len() ==> c < (#[trigger] self.children@[j]).key->0),
    {
        let mut lo: usize = 0;
        let mut hi: usize = self.children.len();
        while lo < hi
            invariant
                lo <= hi <= self.children@.len(),
                forall|i: int| 0 <= i < self.children@.len() ==> (#[trigger] self.children@[i]).key is Some,
                forall|i: int, j: int| 0 <= i < j < self.children@.len() ==>
                    (#[trigger] self.children@[i]).key->0 < (#[trigger] self.children@[j]).key->0,
                forall|j: int| 0 <= j < lo ==> (#[trigger] self.children@[j]).key->0 < c,
                forall|j: int| hi <= j < self.children@.len() ==> c < (#[trigger] self.children@[j]).key->0,
            decreases hi - lo,
        {
            let mid = lo + (hi - lo) / 2;
            let k = match self.children[mid].key {
                Some(k) => k,
                None => c,
            };
            if k == c {
                return Ok(mid);
            } else if k < c {
                lo = mid + 1;
            } else {
                hi = mid;
            }
        }
        Err(lo)
    }
}

/// In a node whose children are sorted by key, the child reached by the key
/// of child `j` is child `j`.
proof fn lemma_child_at(node: Node, j: int)
    requires
        forall|i: int| 0 <= i < node.children@.len() ==> (#[trigger] node.children@[i]).key is Some,
        forall|a: int, b: int| 0 <= a < b < node.children@.len() ==>
            (#[trigger] node.children@[a]).key->0 < (#[trigger] node.children@[b]).key->0,
        0 <= j < node.children@.len(),
    ensures
        node.has_child(node.children@[j].key->0),
        node.child(node.children@[j].key->0) == node.children@[j],
{
    let c = node.children@[j].key->0;
    assert(node.children@[j].key == Some(c));
    let k = choose|i: int| 0 <= i < node.children@.len() && node.children@[i].key == Some(c);
    if k < j {
        assert(node.children@[k].key->0 < node.children@[j].key->0);
    } else if k > j {
        assert(node.children@[j].key->0 < node.children@[k].key->0);
    }
}

/// Inserts the word `chars` below `node`, which is reached by its first `i`
/// characters.
fn insert_at(node: &mut Node, chars: &Vec<char>, i: usize, s: &str)
    requires
        i <= chars@.len(),
        chars@ == s@,
        old(node).wf_at(chars@.subrange(0, i as int)),
        old(node).count_of(chars@.subrange(i as int, chars@.len() as int)) < usize::MAX,
    ensures
        final(node).wf_at(chars@.subrange(0, i as int)),
        final(node).key == old(node).key,
        forall|w: Seq<char>| #[trigger] final(node).count_of(w) == old(node).count_of(w)
            + if w == chars@.subrange(i as int, chars@.len() as int) { 1nat } else { 0 },
    decreases chars@.len() - i,
{
    let ghost path = chars@.subrange(0, i as int);
    let ghost rest = chars@.subrange(i as int, chars@.len() as int);
    let ghost before = *node;
    if i == chars.len() {
        node.count = node.count + 1;
        node.val = Some(s.to_owned());
        proof {
            assert(path =~= s@);
            assert(rest =~= Seq::<char>::empty());
            assert forall|w: Seq<char>| #[trigger] node.count_of(w) == before.count_of(w)
                + if w == rest { 1nat } else { 0 } by {
                if w.len() > 0 {
                    assert(w != rest);
                    assert(node.children@ == before.children@);
                    assert(node.has_child(w[0]) == before.has_child(w[0]));
                    assert(node.child(w[0]) == before.child(w[0]));
                } else {
                    assert(w =~= rest);
                }
            }
        }
        return;
    }
    let c = chars[i];
    proof {
        assert(rest[0] == c);
        assert(rest.drop_first() =~= chars@.subrange(i + 1, chars@.len() as int));
        assert(chars@.subrange(0, i + 1) =~= path.push(c));
    }
    match node.find(c) {
        Ok(idx) => {
            proof {
                lemma_child_at(before, idx as int);
            }
            insert_at(&mut node.children[idx], chars, i + 1, s);
            proof {
                lemma_wf_update(before, *node, path, idx as int);
                lemma_count_update(before, *node, idx as int, chars@.subrange(i + 1, chars@.len() as int), c, rest);
            }
        },
        Err(idx) => {
            let fresh = Node::with_key(c);
            node.children.insert(idx, fresh);
            let ghost mid = *node;
            proof {
                assert(mid.children@[idx as int] == fresh);
                assert forall|a: int, b: int| 0 <= a < b < mid.children@.len() implies
                    (#[trigger] mid.children@[a]).key->0 < (#[trigger] mid.children@[b]).key->0 by {
                    if b < idx {
                        assert(mid.children@[a] == before.children@[a] && mid.children@[b] == before.children@[b]);
                    } else if a > idx {
                        assert(mid.children@[a] == before.children@[a - 1] && mid.children@[b] == before.children@[b - 1]);
                    } else if a < idx {
                        assert(mid.children@[a] == before.children@[a]);
                    }
                }
                assert(fresh.wf_at(path.push(c)));
                assert forall|j: int| 0 <= j < mid.children@.len() implies
                    (#[trigger] mid.children@[j]).wf_at(path.push(mid.children@[j].key->0)) by {
                    if j < idx {
                        assert(mid.children@[j] == before.children@[j]);
                    } else if j > idx {
                        assert(mid.children@[j] == before.children@[j - 1]);
                    }
                }
                assert(mid.wf_at(path));
                lemma_child_at(mid, idx as int);
                assert forall|w: Seq<char>| #[trigger] mid.count_of(w) == before.count_of(w) by {
                    if w.len() > 0 {
                        if w[0] == c {
                            assert(!before.has_child(c)) by {
                                if before.has_child(c) {
                                    let j = choose|j: int| 0 <= j < before.children@.len() && before.children@[j].key == Some(c);
                                    if j < idx {
                                        assert(before.children@[j].key->0 < c);
                                    } else {
                                        assert(c < before.children@[j].key->0);
                                    }
                                }
                            }
                            assert(mid.child(c) == fresh);
                            assert(fresh.count_of(w.drop_first()) == 0);
                        } else if before.has_child(w[0]) {
                            let j = choose|j: int| 0 <= j < before.children@.len() && before.children@[j].key == Some(w[0]);
                            lemma_child_at(before, j);
                            let m = if j < idx { j } else { j + 1 };
                            assert(mid.children@[m] == before.children@[j]);
                            lemma_child_at(mid, m);
                        } else {
                            if mid.has_child(w[0]) {
                                let m = choose|m: int| 0 <= m < mid.children@.len() && mid.children@[m].key == Some(w[0]);
                                if m < idx {
                                    assert(mid.children@[m] == before.children@[m]);
                                } else if m > idx {
                                    assert(mid.children@[m] == before.children@[m - 1]);
                                }
                            }
                        }
                    }
                }
            }
            insert_at(&mut node.children[idx], chars, i + 1, s);
            proof {
                lemma_wf_update(mid, *node, path, idx as int);
                lemma_count_update(mid, *node, idx as int, chars@.subrange(i + 1, chars@.len() as int), c, rest);
            }
        },
    }
}

/// Replacing child `idx` by one with the same key that is well formed keeps
/// the node well formed.
proof fn lemma_wf_update(before: Node, after: Node, path: Seq<char>, idx: int)
    requires
        before.wf_at(path),
        0 <= idx < before.children@.len(),
        after.children@ == before.children@.update(idx, after.children@[idx]),
        after.children@[idx].key == before.children@[idx].key,
        after.children@[idx].wf_at(path.push(before.children@[idx].key->0)),
        after.count == before.count,
        after.val == before.val,
    ensures
        after.wf_at(path),
{
    assert forall|a: int, b: int| 0 <= a < b < after.children@.len() implies
        (#[trigger] after.children@[a]).key->0 < (#[trigger] after.children@[b]).key->0 by {
        assert(before.children@[a].key->0 < before.children@[b].key->0);
    }
    assert forall|j: int| 0 <= j < after.children@.len() implies
        (#[trigger] after.children@[j]).wf_at(path.push(after.children@[j].key->0)) by {
        if j != idx {
            assert(after.children@[j] == before.children@[j]);
        }
    }
}

/// Replacing child `idx`, reached by `c`, by one that counts `tail` once more
/// makes the node count `c` followed by `tail` once more.
proof fn lemma_count_update(before: Node, after: Node, idx: int, tail: Seq<char>, c: char, word: Seq<char>)
    requires
        forall|i: int| 0 <= i < before.children@.len() ==> (#[trigger] before.children@[i]).key is Some,
        forall|a: int, b: int| 0 <= a < b < before.children@.len() ==>
            (#[trigger] before.children@[a]).key->0 < (#[trigger] before.children@[b]).key->0,
        0 <= idx < before.children@.len(),
        before.children@[idx].key == Some(c),
        after.children@ == before.children@.update(idx, after.children@[idx]),
        after.children@[idx].key == Some(c),
        after.count == before.count,
        word.len() > 0,
        word[0] == c,
        word.drop_first() == tail,
        forall|w: Seq<char>| #[trigger] after.children@[idx].count_of(w) == before.children@[idx].count_of(w)
            + if w == tail { 1nat } else { 0 },
    ensures
        forall|w: Seq<char>| #[trigger] after.count_of(w) == before.count_of(w) + if w == word { 1nat } else { 0 },
{
    assert forall|a: int, b: int| 0 <= a < b < after.children@.len() implies
        (#[trigger] after.children@[a]).key->0 < (#[trigger] after.children@[b]).key->0 by {
        assert(before.children@[a].key->0 < before.children@[b].key->0);
    }
    assert forall|i: int| 0 <= i < after.children@.len() implies (#[trigger] after.children@[i]).key is Some by {
        assert(before.children@[i].key is Some);
    }
    assert forall|w: Seq<char>| #[trigger] after.count_of(w) == before.count_of(w) + if w == word { 1nat } else { 0 } by {
        if w.len() > 0 {
            if w[0] == c {
                lemma_child_at(before, idx);
                lemma_child_at(after, idx);
                assert(after.child(c) == after.children@[idx]);
                assert(before.child(c) == before.children@[idx]);
                assert(after.count_of(w) == after.children@[idx].count_of(w.drop_first()));
                assert(before.count_of(w) == before.children@[idx].count_of(w.drop_first()));
                if w == word {
                    assert(w.drop_first() == tail);
                } else {
                    assert(w.drop_first() != tail) by {
                        if w.drop_first() == tail {
                            assert(w.len() == word.len());
                            assert forall|k: int| 0 <= k < w.len() implies w[k] == word[k] by {
                                if k > 0 {
                                    assert(w[k] == w.drop_first()[k - 1]);
                                    assert(word[k] == word.drop_first()[k - 1]);
                                }
                            }
                            assert(w =~= word);
                        }
                    }
                }
            } else {
                if before.has_child(w[0]) {
                    let j = choose|j: int| 0 <= j < before.children@.len() && before.children@[j].key == Some(w[0]);
                    lemma_child_at(before, j);
                    assert(after.children@[j] == before.children@[j]);
                    lemma_child_at(after, j);
                } else if after.has_child(w[0]) {
                    let j = choose|j: int| 0 <= j < after.children@.len() && after.children@[j].key == Some(w[0]);
                    assert(after.children@[j] == before.children@[j]);
                }
            }
        } else {
            assert(w != word);
        }
    }
}

/// The characters of a string.
fn chars_of(s: &str) -> (r: Vec<char>)
    ensures
        r@ == s@,
{
    let r = Chars.tokenize(s);
    proof {
        assert(r@ =~= crate::symbol::views(r@));
    }
    r
}

/// `e` is the entry of a word inserted below `node`, which is reached by
/// `path`: the whole word and how often it was inserted.
pub open spec fn entry_below(node: Node, path: Seq<char>, e: (usize, String)) -> bool {
    exists|w: Seq<char>| e.1@ == path + w && #[trigger] node.count_of(w) == e.0 && e.0 > 0
}

/// Entries ordered by count, then by word.
pub open spec fn entry_le(x: (usize, String), y: (usize, String)) -> bool {
    x.0 < y.0 || (x.0 == y.0 && lex_le(x.1@, y.1@))
}

/// No two entries hold the same word.
pub open spec fn words_distinct(s: Seq<(usize, String)>) -> bool {
    forall|a: int, b: int| 0 <= a < b < s.len() ==> (#[trigger] s[a]).1@ != (#[trigger] s[b]).1@
}

/// Appends the entries of all words inserted below `node`, each once.
#[verifier::spinoff_prover]
#[verifier::rlimit(100)]
fn collect(node: &Node, Ghost(path): Ghost<Seq<char>>, out: &mut Vec<(usize, String)>)
    requires
        node.wf_at(path),
    ensures
        final(out)@.len() >= old(out)@.len(),
        final(out)@.subrange(0, old(out)@.len() as int) == old(out)@,
        forall|j: int| old(out)@.len() <= j < final(out)@.len() ==> entry_below(*node, path, #[trigger] final(out)@[j]),
        forall|w: Seq<char>| #[trigger] node.count_of(w) > 0 ==>
            exists|j: int| old(out)@.len() <= j < final(out)@.len() && (#[trigger] final(out)@[j]).1@ == path + w,
        words_distinct(final(out)@.subrange(old(out)@.len() as int, final(out)@.len() as int)),
    decreases node,
{
    let ghost start = out@.len();
    let ghost first = out@;
    if node.count > 0 {
        let v = match &node.val {
            Some(v) => v.clone(),
            None => String::new(),
        };
        out.push((node.count, v));
        proof {
            assert(out@[start as int].1@ == path + Seq::<char>::empty());
            assert(node.count_of(Seq::<char>::empty()) == node.count);
        }
    }
    let ghost own = out@.len();
    let mut i: usize = 0;
    while i < node.children.len()
        invariant
            node.wf_at(path),
            start <= own <= out@.len(),
            own == start || own == start + 1,
            own == start + 1 <==> node.count > 0,
            i <= node.children@.len(),
            out@.subrange(0, start as int) == first,
            own == start + 1 ==> out@[start as int].1@ == path && out@[start as int].0 == node.count,
            forall|j: int| start <= j < out@.len() ==> entry_below(*node, path, #[trigger] out@[j]),
            forall|j: int| own <= j < out@.len() ==> (#[trigger] out@[j]).1@.len() > path.len()
                && (forall|c: int| i <= c < node.children@.len() ==>
                    out@[j].1@[path.len() as int] < (#[trigger] node.children@[c]).key->0),
            forall|w: Seq<char>| #[trigger] node.count_of(w) > 0 && w.len() > 0
                && (exists|c: int| 0 <= c < i && (#[trigger] node.children@[c]).key == Some(w[0])) ==>
                exists|j: int| start <= j < out@.len() && (#[trigger] out@[j]).1@ == path + w,
            words_distinct(out@.subrange(start as int, out@.len() as int)),
        decreases node.children@.len() - i,
    {
        let c = node.children[i].key.unwrap();
        let ghost before = out@;
        let ghost cpath = path.push(c);
        proof {
            lemma_child_at(*node, i as int);
        }
        collect(&node.children[i], Ghost(cpath), out);
        proof {
            lemma_collect_step(*node, path, i as int, start as int, own as int, first, before, out@);
        }
        i = i + 1;
    }
    proof {
        assert forall|w: Seq<char>| #[trigger] node.count_of(w) > 0 implies
            exists|j: int| start <= j < out@.len() && (#[trigger] out@[j]).1@ == path + w by {
            if w.len() == 0 {
                assert(path + w =~= path);
                assert(out@[start as int].1@ == path + w);
            } else {
                let d = choose|d: int| 0 <= d < node.children@.len() && node.children@[d].key == Some(w[0]);
                assert(node.children@[d].key == Some(w[0]));
            }
        }
    }
}

fn entry_before(x: &(usize, String), y: &(usize, String)) -> (r: bool)
    ensures
        r == entry_le(*x, *y),
{
    x.0 < y.0 || (x.0 == y.0 && str_le(&x.1, &y.1))
}

/// One step of `collect` over the children of `node`: the entries that the
/// call on child `i` appended keep the loop's invariant.
#[verifier::spinoff_prover]
#[verifier::rlimit(100)]
proof fn lemma_collect_step(node: Node, path: Seq<char>, i: int, start: int, own: int,
    first: Seq<(usize, String)>, before: Seq<(usize, String)>, after: Seq<(usize, String)>)
    requires
        node.wf_at(path),
        0 <= i < node.children@.len(),
        0 <= start <= own <= before.len(),
        own == start || own == start + 1,
        before.subrange(0, start) == first,
        own == start + 1 ==> before[start].1@ == path,
        forall|j: int| start <= j < before.len() ==> entry_below(node, path, #[trigger] before[j]),
        forall|j: int| own <= j < before.len() ==> (#[trigger] before[j]).1@.len() > path.len()
            && (forall|c: int| i <= c < node.children@.len() ==>
                before[j].1@[path.len() as int] < (#[trigger] node.children@[c]).key->0),
        forall|w: Seq<char>| #[trigger] node.count_of(w) > 0 && w.len() > 0
            && (exists|c: int| 0 <= c < i && (#[trigger] node.children@[c]).key == Some(w[0])) ==>
            exists|j: int| start <= j < before.len() && (#[trigger] before[j]).1@ == path + w,
        words_distinct(before.subrange(start, before.len() as int)),
        after.len() >= before.len(),
        after.subrange(0, before.len() as int) == before,
        forall|j: int| before.len() <= j < after.len() ==>
            entry_below(node.children@[i], path.push(node.children@[i].key->0), #[trigger] after[j]),
        forall|w: Seq<char>| #[trigger] node.children@[i].count_of(w) > 0 ==>
            exists|j: int| before.len() <= j < after.len()
                && (#[trigger] after[j]).1@ == path.push(node.children@[i].key->0) + w,
        words_distinct(after.subrange(before.len() as int, after.len() as int)),
    ensures
        after.subrange(0, start) == first,
        own == start + 1 ==> after[start].1@ == path,
        forall|j: int| start <= j < after.len() ==> entry_below(node, path, #[trigger] after[j]),
        forall|j: int| own <= j < after.len() ==> (#[trigger] after[j]).1@.len() > path.len()
            && (forall|c: int| i + 1 <= c < node.children@.len() ==>
                after[j].1@[path.len() as int] < (#[trigger] node.children@[c]).key->0),
        forall|w: Seq<char>| #[trigger] node.count_of(w) > 0 && w.len() > 0
            && (exists|c: int| 0 <= c < i + 1 && (#[trigger] node.children@[c]).key == Some(w[0])) ==>
            exists|j: int| start <= j < after.len() && (#[trigger] after[j]).1@ == path + w,
        words_distinct(after.subrange(start, after.len() as int)),
{
    let b = before.len() as int;
    lemma_kept(first, before, after, start);
    lemma_new_entries(node, path, i, b, after);
    lemma_order_step(node, path, i, own, before, after);
    lemma_cover_step(node, path, i, start, before, after);
    lemma_distinct_step(node, path, i, start, own, before, after);
}

proof fn lemma_kept(first: Seq<(usize, String)>, before: Seq<(usize, String)>, after: Seq<(usize, String)>, start: int)
    requires
        0 <= start <= before.len() <= after.len(),
        before.subrange(0, start) == first,
        after.subrange(0, before.len() as int) == before,
    ensures
        after.subrange(0, start) == first,
        forall|j: int| 0 <= j < before.len() ==> #[trigger] after[j] == before[j],
{
    let b = before.len() as int;
    assert forall|j: int| 0 <= j < b implies #[trigger] after[j] == before[j] by {
        assert(after.subrange(0, b)[j] == after[j]);
    }
    assert(after.subrange(0, start) =~= first) by {
        assert forall|j: int| 0 <= j < start implies after.subrange(0, start)[j] == first[j] by {
            assert(before.subrange(0, start)[j] == before[j]);
        }
    }
}

proof fn lemma_order_step(node: Node, path: Seq<char>, i: int, own: int, before: Seq<(usize, String)>, after: Seq<(usize, String)>)
    requires
        node.wf_at(path),
        0 <= i < node.children@.len(),
        0 <= own <= before.len() <= after.len(),
        forall|j: int| 0 <= j < before.len() ==> #[trigger] after[j] == before[j],
        forall|j: int| own <= j < before.len() ==> (#[trigger] before[j]).1@.len() > path.len()
            && (forall|c: int| i <= c < node.children@.len() ==>
                before[j].1@[path.len() as int] < (#[trigger] node.children@[c]).key->0),
        forall|j: int| before.len() <= j < after.len() ==>
            (#[trigger] after[j]).1@.len() > path.len() && after[j].1@[path.len() as int] == node.children@[i].key->0,
    ensures
        forall|j: int| own <= j < after.len() ==> (#[trigger] after[j]).1@.len() > path.len()
            && (forall|c: int| i + 1 <= c < node.children@.len() ==>
                after[j].1@[path.len() as int] < (#[trigger] node.children@[c]).key->0),
{
    assert forall|j: int| own <= j < after.len() implies (#[trigger] after[j]).1@.len() > path.len()
        && (forall|d: int| i + 1 <= d < node.children@.len() ==>
            after[j].1@[path.len() as int] < (#[trigger] node.children@[d]).key->0) by {
        if j < before.len() {
            assert(after[j] == before[j]);
        } else {
            assert forall|d: int| i + 1 <= d < node.children@.len() implies
                after[j].1@[path.len() as int] < (#[trigger] node.children@[d]).key->0 by {
                assert(node.children@[i].key->0 < node.children@[d].key->0);
            }
        }
    }
}

proof fn lemma_cover_step(node: Node, path: Seq<char>, i: int, start: int, before: Seq<(usize, String)>, after: Seq<(usize, String)>)
    requires
        node.wf_at(path),
        0 <= i < node.children@.len(),
        0 <= start <= before.len() <= after.len(),
        forall|j: int| 0 <= j < before.len() ==> #[trigger] after[j] == before[j],
        forall|w: Seq<char>| #[trigger] node.count_of(w) > 0 && w.len() > 0
            && (exists|c: int| 0 <= c < i && (#[trigger] node.children@[c]).key == Some(w[0])) ==>
            exists|j: int| start <= j < before.len() && (#[trigger] before[j]).1@ == path + w,
        forall|w: Seq<char>| #[trigger] node.children@[i].count_of(w) > 0 ==>
            exists|j: int| before.len() <= j < after.len()
                && (#[trigger] after[j]).1@ == path.push(node.children@[i].key->0) + w,
    ensures
        forall|w: Seq<char>| #[trigger] node.count_of(w) > 0 && w.len() > 0
            && (exists|c: int| 0 <= c < i + 1 && (#[trigger] node.children@[c]).key == Some(w[0])) ==>
            exists|j: int| start <= j < after.len() && (#[trigger] after[j]).1@ == path + w,
{
    let child = node.children@[i];
    let cpath = path.push(child.key->0);
    lemma_child_at(node, i);
    assert forall|w: Seq<char>| #[trigger] node.count_of(w) > 0 && w.len() > 0
        && (exists|d: int| 0 <= d < i + 1 && (#[trigger] node.children@[d]).key == Some(w[0])) implies
        exists|j: int| start <= j < after.len() && (#[trigger] after[j]).1@ == path + w by {
        let d = choose|d: int| 0 <= d < i + 1 && (#[trigger] node.children@[d]).key == Some(w[0]);
        if d < i {
            let j = choose|j: int| start <= j < before.len() && (#[trigger] before[j]).1@ == path + w;
            assert(after[j] == before[j]);
        } else {
            assert(node.count_of(w) == child.count_of(w.drop_first()));
            let j = choose|j: int| before.len() <= j < after.len() && (#[trigger] after[j]).1@ == cpath + w.drop_first();
            assert(cpath + w.drop_first() =~= path + w);
        }
    }
}

proof fn lemma_distinct_step(node: Node, path: Seq<char>, i: int, start: int, own: int, before: Seq<(usize, String)>, after: Seq<(usize, String)>)
    requires
        0 <= i < node.children@.len(),
        0 <= start <= own <= before.len() <= after.len(),
        own == start || own == start + 1,
        own == start + 1 ==> before[start].1@ == path,
        forall|j: int| 0 <= j < before.len() ==> #[trigger] after[j] == before[j],
        forall|j: int| own <= j < before.len() ==> (#[trigger] before[j]).1@.len() > path.len()
            && (forall|c: int| i <= c < node.children@.len() ==>
                before[j].1@[path.len() as int] < (#[trigger] node.children@[c]).key->0),
        forall|j: int| before.len() <= j < after.len() ==>
            (#[trigger] after[j]).1@.len() > path.len() && after[j].1@[path.len() as int] == node.children@[i].key->0,
        words_distinct(before.subrange(start, before.len() as int)),
        words_distinct(after.subrange(before.len() as int, after.len() as int)),
    ensures
        words_distinct(after.subrange(start, after.len() as int)),
{
    let b = before.len() as int;
    let added = after.subrange(start, after.len() as int);
    assert forall|x: int, y: int| 0 <= x < y < added.len() implies (#[trigger] added[x]).1@ != (#[trigger] added[y]).1@ by {
        let jx = start + x;
        let jy = start + y;
        assert(added[x] == after[jx] && added[y] == after[jy]);
        if jy < b {
            assert(before.subrange(start, b)[x] == before[jx]);
            assert(before.subrange(start, b)[y] == before[jy]);
        } else if jx < b {
            if jx < own {
                assert(after[jx].1@.len() == path.len());
            } else {
                assert(before[jx].1@[path.len() as int] < node.children@[i].key->0);
            }
        } else {
            let sub = after.subrange(b, after.len() as int);
            assert(sub[jx - b] == after[jx] && sub[jy - b] == after[jy]);
        }
    }
}

/// The entries appended by the call on child `i` are entries below `node`,
/// longer than `path`, with the child's key right after `path`.
proof fn lemma_new_entries(node: Node, path: Seq<char>, i: int, b: int, after: Seq<(usize, String)>)
    requires
        node.wf_at(path),
        0 <= i < node.children@.len(),
        0 <= b <= after.len(),
        forall|j: int| b <= j < after.len() ==>
            entry_below(node.children@[i], path.push(node.children@[i].key->0), #[trigger] after[j]),
    ensures
        forall|j: int| b <= j < after.len() ==> entry_below(node, path, #[trigger] after[j])
            && after[j].1@.len() > path.len() && after[j].1@[path.len() as int] == node.children@[i].key->0,
{
    let child = node.children@[i];
    let c = child.key->0;
    let cpath = path.push(c);
    lemma_child_at(node, i);
    assert forall|j: int| b <= j < after.len() implies entry_below(node, path, #[trigger] after[j])
        && after[j].1@.len() > path.len() && after[j].1@[path.len() as int] == c by {
        let w = choose|w: Seq<char>| after[j].1@ == cpath + w && #[trigger] child.count_of(w) == after[j].0 && after[j].0 > 0;
        let w2 = seq![c] + w;
        assert(w2[0] == c);
        assert(w2.drop_first() =~= w);
        assert(node.count_of(w2) == child.count_of(w));
        assert(path + w2 =~= cpath + w);
        assert((cpath + w)[path.len() as int] == c);
    }
}

/// Inserts `e` into `v`, sorted by `entry_le`, where it keeps `v` sorted.
fn insert_sorted(v: &mut Vec<(usize, String)>, e: (usize, String))
    requires
        forall|a: int, b: int| 0 <= a < b < old(v)@.len() ==> entry_le(old(v)@[a], old(v)@[b]),
    ensures
        forall|a: int, b: int| 0 <= a < b < final(v)@.len() ==> entry_le(final(v)@[a], final(v)@[b]),
        exists|p: int| 0 <= p <= old(v)@.len() && final(v)@ == old(v)@.insert(p, e),
{
    let mut p: usize = 0;
    while p < v.len() && entry_before(&v[p], &e)
        invariant
            p <= v@.len(),
            v@ == old(v)@,
            forall|a: int, b: int| 0 <= a < b < v@.len() ==> entry_le(v@[a], v@[b]),
            forall|a: int| 0 <= a < p ==> entry_le(v@[a], e),
        decreases v@.len() - p,
    {
        p = p + 1;
    }
    let ghost s = v@;
    proof {
        if p < s.len() {
            lemma_lex_total(s[p as int].1@, e.1@);
            assert(entry_le(e, s[p as int]));
            assert forall|b: int| p <= b < s.len() implies entry_le(e, s[b]) by {
                if b > p {
                    assert(entry_le(s[p as int], s[b]));
                    if e.0 == s[p as int].0 && s[p as int].0 == s[b].0 {
                        lemma_lex_trans(e.1@, s[p as int].1@, s[b].1@);
                    }
                }
            }
        }
    }
    v.insert(p, e);
    proof {
        assert forall|a: int, b: int| 0 <= a < b < v@.len() implies entry_le(v@[a], v@[b]) by {
            if b < p {
                assert(v@[a] == s[a] && v@[b] == s[b]);
            } else if b == p {
                assert(v@[a] == s[a]);
            } else if a < p {
                assert(v@[a] == s[a] && v@[b] == s[b - 1]);
                assert(entry_le(s[a], e) && entry_le(e, s[b - 1]));
                if s[a].0 == e.0 && e.0 == s[b - 1].0 {
                    lemma_lex_trans(s[a].1@, e.1@, s[b - 1].1@);
                }
            } else if a == p {
                assert(v@[b] == s[b - 1]);
            } else {
                assert(v@[a] == s[a - 1] && v@[b] == s[b - 1]);
            }
        }
        assert(v@ == s.insert(p as int, e));
    }
}

/// The entries sorted by `entry_le`: the same entries, words still distinct.
#[verifier::spinoff_prover]
fn sort_entries(found: &Vec<(usize, String)>) -> (entries: Vec<(usize, String)>)
    requires
        words_distinct(found@),
    ensures
        forall|a: int, b: int| 0 <= a < b < entries@.len() ==> entry_le(entries@[a], entries@[b]),
        entries@.to_multiset() == found@.to_multiset(),
        words_distinct(entries@),
{
    let mut entries: Vec<(usize, String)> = Vec::new();
    let mut k: usize = 0;
    proof {
        assert(found@.subrange(0, 0) =~= Seq::<(usize, String)>::empty());
        assert(entries@ =~= Seq::<(usize, String)>::empty());
    }
    while k < found.len()
        invariant
            k <= found@.len(),
            words_distinct(found@),
            forall|a: int, b: int| 0 <= a < b < entries@.len() ==> entry_le(entries@[a], entries@[b]),
            entries@.to_multiset() == found@.subrange(0, k as int).to_multiset(),
            words_distinct(entries@),
        decreases found@.len() - k,
    {
        let e = (found[k].0, found[k].1.clone());
        let ghost old_entries = entries@;
        proof {
            assert(e == found@[k as int]);
        }
        insert_sorted(&mut entries, e);
        proof {
            let p = choose|p: int| 0 <= p <= old_entries.len() && entries@ == old_entries.insert(p, e);
            vstd::seq_lib::to_multiset_insert(old_entries, p, e);
            let pre = found@.subrange(0, k as int);
            assert(found@.subrange(0, k + 1) =~= pre.push(e));
            vstd::seq_lib::to_multiset_build(pre, e);
            assert forall|a: int, b: int| 0 <= a < b < entries@.len() implies (#[trigger] entries@[a]).1@ != (#[trigger] entries@[b]).1@ by {
                if a != p && b != p {
                    let ia = if a < p { a } else { a - 1 };
                    let ib = if b < p { b } else { b - 1 };
                    assert(entries@[a] == old_entries[ia] && entries@[b] == old_entries[ib]);
                } else {
                    let other = if a == p { b } else { a };
                    let io = if other < p { other } else { other - 1 };
                    let x = old_entries[io];
                    assert(entries@[other] == x);
                    vstd::seq_lib::to_multiset_contains(old_entries, x);
                    vstd::seq_lib::to_multiset_contains(pre, x);
                    assert(old_entries.contains(x));
                    assert(pre.contains(x));
                    let j = choose|j: int| 0 <= j < pre.len() && pre[j] == x;
                    assert(found@[j] == x);
                    assert(found@[j].1@ != found@[k as int].1@);
                }
            }
        }
        k = k + 1;
    }
    proof {
        assert(found@.subrange(0, k as int) =~= found@);
    }
    entries
}

/// The words of the entries, in order.
fn words_of(entries: &Vec<(usize, String)>) -> (r: Vec<String>)
    ensures
        r@.len() == entries@.len(),
        forall|x: int| 0 <= x < r@.len() ==> #[trigger] r@[x] == entries@[x].1,
{
    let mut r: Vec<String> = Vec::new();
    let mut m: usize = 0;
    while m < entries.len()
        invariant
            m <= entries@.len(),
            r@.len() == m,
            forall|x: int| 0 <= x < m ==> #[trigger] r@[x] == entries@[x].1,
        decreases entries@.len() - m,
    {
        r.push(entries[m].1.clone());
        m = m + 1;
    }
    r
}

/// What `search` returns, from what its parts ensure.
#[verifier::spinoff_prover]
proof fn lemma_search_result(trie: Trie, cur: Node, s: Seq<char>, found: Seq<(usize, String)>,
    entries: Seq<(usize, String)>, r: Seq<String>)
    requires
        forall|w: Seq<char>| #[trigger] trie.count_of(s + w) == cur.count_of(w),
        forall|j: int| 0 <= j < found.len() ==> entry_below(cur, s, #[trigger] found[j]),
        forall|w: Seq<char>| #[trigger] cur.count_of(w) > 0 ==>
            exists|j: int| 0 <= j < found.len() && (#[trigger] found[j]).1@ == s + w,
        forall|a: int, b: int| 0 <= a < b < entries.len() ==> entry_le(entries[a], entries[b]),
        entries.to_multiset() == found.to_multiset(),
        words_distinct(entries),
        r.len() == entries.len(),
        forall|x: int| 0 <= x < r.len() ==> #[trigger] r[x] == entries[x].1,
    ensures
        forall|w: Seq<char>| (exists|j: int| 0 <= j < r.len() && #[trigger] r[j]@ == w)
            <==> (starts_with(w, s) && trie.count_of(w) > 0),
        forall|a: int, b: int| 0 <= a < b < r.len() ==> (#[trigger] r[a])@ != (#[trigger] r[b])@,
        forall|a: int, b: int| 0 <= a < b < r.len() ==> trie.count_of((#[trigger] r[a])@) < trie.count_of((#[trigger] r[b])@)
            || (trie.count_of(r[a]@) == trie.count_of(r[b]@) && lex_le(r[a]@, r[b]@)),
{
    assert forall|x: int| 0 <= x < r.len() implies
        #[trigger] trie.count_of(r[x]@) == entries[x].0 && starts_with(r[x]@, s) && entries[x].0 > 0 by {
        let e = entries[x];
        vstd::seq_lib::to_multiset_contains(entries, e);
        vstd::seq_lib::to_multiset_contains(found, e);
        assert(entries.contains(e));
        assert(found.contains(e));
        let j = choose|j: int| 0 <= j < found.len() && found[j] == e;
        assert(entry_below(cur, s, found[j]));
        let w = choose|w: Seq<char>| found[j].1@ == s + w && #[trigger] cur.count_of(w) == found[j].0 && found[j].0 > 0;
        assert((s + w).subrange(0, s.len() as int) =~= s);
        assert(trie.count_of(s + w) == cur.count_of(w));
    }
    assert forall|w: Seq<char>| (exists|j: int| 0 <= j < r.len() && #[trigger] r[j]@ == w)
        <==> (starts_with(w, s) && trie.count_of(w) > 0) by {
        if starts_with(w, s) && trie.count_of(w) > 0 {
            let tail = w.subrange(s.len() as int, w.len() as int);
            assert(w =~= s + tail);
            assert(cur.count_of(tail) > 0);
            let j = choose|j: int| 0 <= j < found.len() && (#[trigger] found[j]).1@ == s + tail;
            let e = found[j];
            vstd::seq_lib::to_multiset_contains(found, e);
            vstd::seq_lib::to_multiset_contains(entries, e);
            assert(found.contains(e));
            assert(entries.contains(e));
            let x = choose|x: int| 0 <= x < entries.len() && entries[x] == e;
            assert(r[x]@ == w);
        }
    }
    assert forall|a: int, b: int| 0 <= a < b < r.len() implies trie.count_of((#[trigger] r[a])@) < trie.count_of((#[trigger] r[b])@)
        || (trie.count_of(r[a]@) == trie.count_of(r[b]@) && lex_le(r[a]@, r[b]@)) by {
        assert(entry_le(entries[a], entries[b]));
    }
    assert forall|a: int, b: int| 0 <= a < b < r.len() implies (#[trigger] r[a])@ != (#[trigger] r[b])@ by {
        assert(entries[a].1@ != entries[b].1@);
    }
}

/// `w` starts with `s`.
pub open spec fn starts_with(w: Seq<char>, s: Seq<char>) -> bool {
    s.len() <= w.len() && w.subrange(0, s.len() as int) == s
}

/// Every path down from the node has at most `h` edges.
pub open spec fn bounded(n: Node, h: nat) -> bool
    decreases n,
{
    forall|i: int| 0 <= i < n.children@.len() ==> h > 0 && bounded(#[trigger] n.children@[i], (h - 1) as nat)
}

proof fn lemma_bounded_mono(n: Node, h: nat, h2: nat)
    requires
        bounded(n, h),
        h <= h2,
    ensures
        bounded(n, h2),
    decreases n,
{
    assert forall|i: int| 0 <= i < n.children@.len() implies h2 > 0 && bounded(#[trigger] n.children@[i], (h2 - 1) as nat) by {
        lemma_bounded_mono(n.children@[i], (h - 1) as nat, (h2 - 1) as nat);
    }
}

proof fn lemma_bounded_exists(n: Node)
    ensures
        exists|h: nat| bounded(n, h),
    decreases n, n.children@.len() + 1,
{
    lemma_bounded_prefix(n, n.children@.len() as int);
    let m = choose|m: nat| bounds_first(n, n.children@.len() as int, m);
    assert(bounded(n, m + 1));
}

/// The first `i` children of `n` are bounded by `m`.
pub open spec fn bounds_first(n: Node, i: int, m: nat) -> bool {
    forall|j: int| 0 <= j < i ==> bounded(#[trigger] n.children@[j], m)
}

/// One bound covers the first `i` children.
proof fn lemma_bounded_prefix(n: Node, i: int)
    requires
        0 <= i <= n.children@.len(),
    ensures
        exists|m: nat| bounds_first(n, i, m),
    decreases n, i,
{
    if i == 0 {
        assert(bounds_first(n, i, 0nat));
    } else {
        lemma_bounded_prefix(n, i - 1);
        let k = i - 1;
        let m = choose|m: nat| bounds_first(n, k, m);
        let c = n.children@[k];
        lemma_bounded_exists(c);
        let hi = choose|h: nat| bounded(c, h);
        let top = if hi > m { hi } else { m };
        assert forall|j: int| 0 <= j < i implies bounded(#[trigger] n.children@[j], top) by {
            if j < i - 1 {
                lemma_bounded_mono(n.children@[j], m, top);
            } else {
                lemma_bounded_mono(n.children@[j], hi, top);
            }
        }
        assert(bounds_first(n, i, top));
    }
}

/// Every node below `n` is reached by a key.
pub open spec fn all_keys_some(n: Node) -> bool
    decreases n,
{
    forall|i: int| 0 <= i < n.children@.len() ==> (#[trigger] n.children@[i]).key is Some && all_keys_some(n.children@[i])
}

proof fn lemma_keys_some(n: Node, path: Seq<char>)
    requires
        n.wf_at(path),
    ensures
        all_keys_some(n),
    decreases n,
{
    assert forall|i: int| 0 <= i < n.children@.len() implies (#[trigger] n.children@[i]).key is Some && all_keys_some(n.children@[i]) by {
        lemma_keys_some(n.children@[i], path.push(n.children@[i].key->0));
    }
}

/// Each node's key followed by a space.
pub open spec fn keys_line(s: Seq<Node>) -> Seq<char>
    decreases s.len(),
{
    if s.len() == 0 {
        Seq::empty()
    } else {
        keys_line(s.drop_last()) + seq![s.last().key->0, ' ']
    }
}

/// The nodes that have children.
pub open spec fn with_children(s: Seq<Node>) -> Seq<Node>
    decreases s.len(),
{
    if s.len() == 0 {
        Seq::empty()
    } else if s.last().children@.len() > 0 {
        with_children(s.drop_last()).push(s.last())
    } else {
        with_children(s.drop_last())
    }
}

/// The keys of the children of a level's nodes, each followed by a space.
pub open spec fn line_of(level: Seq<Node>) -> Seq<char>
    decreases level.len(),
{
    if level.len() == 0 {
        Seq::empty()
    } else {
        line_of(level.drop_last()) + keys_line(level.last().children@)
    }
}

/// The next level: the children of a level's nodes that have children.
pub open spec fn next_of(level: Seq<Node>) -> Seq<Node>
    decreases level.len(),
{
    if level.len() == 0 {
        Seq::empty()
    } else {
        next_of(level.drop_last()) + with_children(level.last().children@)
    }
}

/// The text of the levels from `level` down, one line per level, for at
/// most `fuel` levels.
pub open spec fn render_from(level: Seq<Node>, fuel: nat) -> Seq<char>
    decreases fuel,
{
    if fuel == 0 || level.len() == 0 {
        Seq::empty()
    } else {
        line_of(level) + (if next_of(level).len() > 0 { seq!['\n'] } else { Seq::empty() })
            + render_from(next_of(level), (fuel - 1) as nat)
    }
}

/// The nodes that the references point to.
pub open spec fn derefs(s: Seq<&Node>) -> Seq<Node> {
    Seq::new(s.len(), |i: int| *s[i])
}

/// Lists the keys of one level of nodes and gathers the next level.
#[verifier::spinoff_prover]
fn render_level<'a>(level: &Vec<&'a Node>, out: &mut Vec<char>) -> (next: Vec<&'a Node>)
    requires
        forall|i: int| 0 <= i < level@.len() ==> forall|j: int| 0 <= j < (#[trigger] level@[i]).children@.len() ==>
            (#[trigger] level@[i].children@[j]).key is Some,
    ensures
        final(out)@ == old(out)@ + line_of(derefs(level@)),
        derefs(next@) == next_of(derefs(level@)),
        forall|k: int| #![trigger next@[k]] 0 <= k < next@.len() ==> exists|i: int, j: int| 0 <= i < level@.len() && 0 <= j < level@[i].children@.len()
            && *next@[k] == #[trigger] level@[i].children@[j],
{
    let ghost out0 = out@;
    let mut next: Vec<&Node> = Vec::new();
    let mut i: usize = 0;
    proof {
        assert(derefs(level@).subrange(0, 0) =~= Seq::<Node>::empty());
        assert(out@ =~= out0 + line_of(Seq::<Node>::empty()));
        assert(derefs(next@) =~= Seq::<Node>::empty());
    }
    while i < level.len()
        invariant
            i <= level@.len(),
            forall|a: int| 0 <= a < level@.len() ==> forall|b: int| 0 <= b < (#[trigger] level@[a]).children@.len() ==>
                (#[trigger] level@[a].children@[b]).key is Some,
            out@ == out0 + line_of(derefs(level@).subrange(0, i as int)),
            derefs(next@) == next_of(derefs(level@).subrange(0, i as int)),
            forall|k: int| #![trigger next@[k]] 0 <= k < next@.len() ==> exists|a: int, b: int| 0 <= a < level@.len() && 0 <= b < level@[a].children@.len()
                && *next@[k] == #[trigger] level@[a].children@[b],
        decreases level@.len() - i,
    {
        let node: &'a Node = level[i];
        let ghost out1 = out@;
        let ghost next1 = derefs(next@);
        let mut j: usize = 0;
        proof {
            assert(node.children@.subrange(0, 0) =~= Seq::<Node>::empty());
            assert(out@ =~= out1 + keys_line(node.children@.subrange(0, 0)));
            assert(derefs(next@) =~= next1 + with_children(node.children@.subrange(0, 0)));
        }
        while j < node.children.len()
            invariant
                i < level@.len(),
                node == level@[i as int],
                j <= node.children@.len(),
                forall|b: int| 0 <= b < node.children@.len() ==> (#[trigger] node.children@[b]).key is Some,
                out@ == out1 + keys_line(node.children@.subrange(0, j as int)),
                derefs(next@) == next1 + with_children(node.children@.subrange(0, j as int)),
                forall|k: int| #![trigger next@[k]] 0 <= k < next@.len() ==> exists|a: int, b: int| 0 <= a < level@.len() && 0 <= b < level@[a].children@.len()
                    && *next@[k] == #[trigger] level@[a].children@[b],
            decreases node.children@.len() - j,
        {
            let child: &'a Node = &node.children[j];
            let ghost pre = node.children@.subrange(0, j as int);
            proof {
                assert(node.children@.subrange(0, j + 1) =~= pre.push(*child));
                assert(node.children@.subrange(0, j + 1).drop_last() =~= pre);
            }
            let key = match child.key {
                Some(k) => k,
                None => ' ',
            };
            out.push(key);
            out.push(' ');
            proof {
                assert(out@ =~= out1 + keys_line(node.children@.subrange(0, j + 1)));
            }
            if child.children.len() > 0 {
                let ghost before = next@;
                next.push(child);
                proof {
                    assert(derefs(next@) =~= derefs(before).push(*child));
                    assert(derefs(next@) =~= next1 + with_children(node.children@.subrange(0, j + 1)));
                    assert forall|k: int| #![trigger next@[k]] 0 <= k < next@.len() implies exists|a: int, b: int| 0 <= a < level@.len() && 0 <= b < level@[a].children@.len()
                        && *next@[k] == #[trigger] level@[a].children@[b] by {
                        if k < before.len() {
                            assert(next@[k] == before[k]);
                        } else {
                            assert(*next@[k] == level@[i as int].children@[j as int]);
                        }
                    }
                }
            } else {
                proof {
                    assert(derefs(next@) =~= next1 + with_children(node.children@.subrange(0, j + 1)));
                }
            }
            j = j + 1;
        }
        proof {
            let lv = derefs(level@);
            assert(node.children@.subrange(0, j as int) =~= node.children@);
            assert(lv.subrange(0, i + 1).drop_last() =~= lv.subrange(0, i as int));
            assert(lv.subrange(0, i + 1).last() == *node);
            assert(out@ =~= out0 + line_of(lv.subrange(0, i + 1)));
            assert(derefs(next@) =~= next_of(lv.subrange(0, i + 1)));
        }
        i = i + 1;
    }
    proof {
        assert(derefs(level@).subrange(0, i as int) =~= derefs(level@));
    }
    next
}

/// A trie of words.
pub struct Trie {
    pub root: Node,
}

impl Trie {
    pub open spec fn wf(self) -> bool {
        self.root.wf_at(Seq::empty())
    }

    /// How often `w` was inserted.
    pub open spec fn count_of(self, w: Seq<char>) -> nat {
        self.root.count_of(w)
    }

    /// An empty trie.
    pub fn new() -> (r: Self)
        ensures
            r.wf(),
            forall|w: Seq<char>| #[trigger] r.count_of(w) == 0,
    {
        Trie { root: Node::new() }
    }

    /// Inserts a word once more.
    pub fn insert(&mut self, s: &str)
        requires
            old(self).wf(),
            old(self).count_of(s@) < usize::MAX,
        ensures
            final(self).wf(),
            forall|w: Seq<char>| #[trigger] final(self).count_of(w) == old(self).count_of(w) + if w == s@ { 1nat } else { 0 },
    {
        let chars = chars_of(s);
        proof {
            assert(chars@.subrange(0, 0) =~= Seq::<char>::empty());
            assert(chars@.subrange(0, chars@.len() as int) =~= s@);
        }
        insert_at(&mut self.root, &chars, 0, s);
    }

    /// The words inserted that start with `s`, each once, ordered by how
    /// often they were inserted and then alphabetically.
    #[verifier::spinoff_prover]
    pub fn search(&self, s: &str) -> (r: Vec<String>)
        requires
            self.wf(),
        ensures
            forall|w: Seq<char>| (exists|j: int| 0 <= j < r@.len() && #[trigger] r@[j]@ == w)
                <==> (starts_with(w, s@) && self.count_of(w) > 0),
            forall|a: int, b: int| 0 <= a < b < r@.len() ==> (#[trigger] r@[a])@ != (#[trigger] r@[b])@,
            forall|a: int, b: int| 0 <= a < b < r@.len() ==> self.count_of((#[trigger] r@[a])@) < self.count_of((#[trigger] r@[b])@)
                || (self.count_of(r@[a]@) == self.count_of(r@[b]@) && lex_le(r@[a]@, r@[b]@)),
    {
        let chars = chars_of(s);
        let mut cur = &self.root;
        let mut i: usize = 0;
        proof {
            assert(chars@.subrange(0, 0) =~= Seq::<char>::empty());
            assert forall|w: Seq<char>| #[trigger] self.count_of(chars@.subrange(0, 0) + w) == self.root.count_of(w) by {
                assert(chars@.subrange(0, 0) + w =~= w);
            }
        }
        while i < chars.len()
            invariant
                chars@ == s@,
                i <= chars@.len(),
                cur.wf_at(chars@.subrange(0, i as int)),
                forall|w: Seq<char>| #[trigger] self.count_of(chars@.subrange(0, i as int) + w) == cur.count_of(w),
            decreases chars@.len() - i,
        {
            let c = chars[i];
            let ghost pre = chars@.subrange(0, i as int);
            proof {
                assert(chars@.subrange(0, i + 1) =~= pre.push(c));
            }
            match cur.find(c) {
                Ok(idx) => {
                    proof {
                        lemma_child_at(*cur, idx as int);
                        assert forall|w: Seq<char>| #[trigger] self.count_of(pre.push(c) + w) == cur.children@[idx as int].count_of(w) by {
                            let w2 = seq![c] + w;
                            assert(pre.push(c) + w =~= pre + w2);
                            assert(w2[0] == c);
                            assert(w2.drop_first() =~= w);
                        }
                    }
                    cur = &cur.children[idx];
                },
                Err(_) => {
                    proof {
                        assert forall|w: Seq<char>| !(starts_with(w, s@) && self.count_of(w) > 0) by {
                            if starts_with(w, s@) {
                                let tail = w.subrange(i as int, w.len() as int);
                                assert(w =~= pre + tail);
                                assert(tail[0] == c);
                                assert(!cur.has_child(c));
                            }
                        }
                    }
                    return Vec::new();
                },
            }
            i = i + 1;
        }
        proof {
            assert(chars@.subrange(0, i as int) =~= s@);
        }
        let mut found: Vec<(usize, String)> = Vec::new();
        collect(cur, Ghost(s@), &mut found);
        proof {
            assert(found@.subrange(0, found@.len() as int) =~= found@);
        }
        let entries = sort_entries(&found);
        let r = words_of(&entries);
        proof {
            lemma_search_result(*self, *cur, s@, found@, entries@, r@);
        }
        r
    }

    /// The keys of the trie, level by level: each key followed by a space,
    /// a line break between levels.
    pub fn render(&self) -> (r: String)
        requires
            self.wf(),
        ensures
            exists|h: nat| bounded(self.root, h) && r@ == render_from(seq![self.root], h + 1),
    {
        proof {
            lemma_bounded_exists(self.root);
            lemma_keys_some(self.root, Seq::empty());
        }
        let ghost h = choose|h: nat| bounded(self.root, h);
        let mut out: Vec<char> = Vec::new();
        let mut level: Vec<&Node> = Vec::new();
        level.push(&self.root);
        let ghost mut fuel: int = h as int + 1;
        proof {
            assert(derefs(level@) =~= seq![self.root]);
            assert(out@ + render_from(seq![self.root], (h + 1) as nat) =~= render_from(seq![self.root], (h + 1) as nat));
        }
        while level.len() > 0
            invariant
                level@.len() > 0 ==> fuel >= 1,
                fuel >= 0,
                forall|i: int| 0 <= i < level@.len() ==> bounded(*(#[trigger] level@[i]), (fuel - 1) as nat),
                forall|i: int| 0 <= i < level@.len() ==> forall|j: int| 0 <= j < (#[trigger] level@[i]).children@.len() ==>
                    (#[trigger] level@[i].children@[j]).key is Some,
                forall|i: int| 0 <= i < level@.len() ==> all_keys_some(*(#[trigger] level@[i])),
                out@ + render_from(derefs(level@), fuel as nat) == render_from(seq![self.root], (h + 1) as nat),
            decreases fuel,
        {
            let ghost out0 = out@;
            let ghost lv = derefs(level@);
            let next = render_level(&level, &mut out);
            if next.len() > 0 {
                out.push('\n');
            }
            proof {
                assert(lv.len() > 0);
                let nl = if next_of(lv).len() > 0 { seq!['\n'] } else { Seq::<char>::empty() };
                assert(out@ =~= out0 + line_of(lv) + nl);
                assert(render_from(lv, fuel as nat) == line_of(lv) + nl + render_from(next_of(lv), (fuel - 1) as nat));
                assert(out@ + render_from(derefs(next@), (fuel - 1) as nat) =~= out0 + render_from(lv, fuel as nat));
                assert forall|k: int| 0 <= k < next@.len() implies bounded(*(#[trigger] next@[k]), (fuel - 2) as nat)
                    && fuel >= 2 && all_keys_some(*next@[k]) by {
                    let (a, b) = choose|a: int, b: int| 0 <= a < level@.len() && 0 <= b < level@[a].children@.len()
                        && *next@[k] == #[trigger] level@[a].children@[b];
                    assert(bounded(*level@[a], (fuel - 1) as nat));
                    assert(all_keys_some(*level@[a]));
                }
            }
            level = next;
            proof {
                fuel = fuel - 1;
            }
        }
        proof {
            assert(derefs(level@) =~= Seq::<Node>::empty());
            assert(out@ =~= out@ + render_from(derefs(level@), fuel as nat));
        }
        string_of(&out)
    }

    /// The node where `s` ends, if `s` was inserted.
    pub fn lookup(&self, s: &str) -> (r: Option<&Node>)
        requires
            self.wf(),
        ensures
            r is Some <==> self.count_of(s@) > 0,
            r matches Some(n) ==> n.count == self.count_of(s@) && n.val == Some(n.val->0) && n.val->0@ == s@,
    {
        let chars = chars_of(s);
        let mut cur = &self.root;
        let mut i: usize = 0;
        proof {
            assert(chars@.subrange(0, 0) =~= Seq::<char>::empty());
            assert(chars@.subrange(0, chars@.len() as int) =~= s@);
        }
        while i < chars.len()
            invariant
                chars@ == s@,
                i <= chars@.len(),
                cur.wf_at(chars@.subrange(0, i as int)),
                self.count_of(s@) == cur.count_of(chars@.subrange(i as int, chars@.len() as int)),
            decreases chars@.len() - i,
        {
            let c = chars[i];
            let ghost rest = chars@.subrange(i as int, chars@.len() as int);
            proof {
                assert(rest[0] == c);
                assert(rest.drop_first() =~= chars@.subrange(i + 1, chars@.len() as int));
                assert(chars@.subrange(0, i + 1) =~= chars@.subrange(0, i as int).push(c));
            }
            match cur.find(c) {
                Ok(idx) => {
                    proof {
                        lemma_child_at(*cur, idx as int);
                    }
                    cur = &cur.children[idx];
                },
                Err(_) => {
                    return None;
                },
            }
            i = i + 1;
        }
        proof {
            assert(chars@.subrange(i as int, chars@.len() as int) =~= Seq::<char>::empty());
            assert(chars@.subrange(0, i as int) =~= s@);
        }
        if cur.count > 0 {
            Some(cur)
        } else {
            None
        }
    }
}

} // verus!
