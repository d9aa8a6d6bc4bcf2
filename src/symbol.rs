//! Symbols and the tokenizers that split a line of text into them.
use vstd::prelude::*;
use vstd::std_specs::iter::IteratorSpec;
use crate::text::string_of;

verus! {

/// The views of a sequence of values, in order.
pub open spec fn views<T: View>(s: Seq<T>) -> Seq<T::V> {
    s.map_values(|t: T| t@)
}

/// A symbol of the code: compared and copied by its view.
pub trait Symbol: View + Sized {
    fn same(&self, other: &Self) -> (r: bool)
        ensures
            r == (self@ == other@),
    ;

    fn dup(&self) -> (r: Self)
        ensures
            r == *self,
    ;
}

impl Symbol for char {
    fn same(&self, other: &Self) -> (r: bool) {
        *self == *other
    }

    fn dup(&self) -> (r: Self) {
        *self
    }
}

impl Symbol for String {
    fn same(&self, other: &Self) -> (r: bool) {
        self.eq(other)
    }

    fn dup(&self) -> (r: Self) {
        self.clone()
    }
}

/// A strategy that splits a line into symbols.
pub trait Tokenizer<T: View> {
    /// The symbols of a line, in order.
    spec fn tokens_of(&self, line: Seq<char>) -> Seq<T::V>;

    /// A line never holds more symbols than characters.
    proof fn lemma_tokens_len(&self, line: Seq<char>)
        ensures
            self.tokens_of(line).len() <= line.len(),
    ;

    fn tokenize(&self, line: &str) -> (r: Vec<T>)
        ensures
            views(r@) == self.tokens_of(line@),
    ;
}

/// Splits a line into its characters.
pub struct Chars;

/// Splits a line into the words between runs of ASCII whitespace.
pub struct Words;

impl Tokenizer<char> for Chars {
    open spec fn tokens_of(&self, line: Seq<char>) -> Seq<char> {
        line
    }

    proof fn lemma_tokens_len(&self, line: Seq<char>) {
    }

    fn tokenize(&self, line: &str) -> (r: Vec<char>) {
        broadcast use vstd::string::group_string_axioms;
        let mut it = line.chars();
        let mut out: Vec<char> = Vec::new();
        loop
            invariant
                out@ + it.remaining() == line@,
                it.decrease() is Some,
            ensures
                out@ == line@,
            decreases it.decrease()->0,
        {
            let ghost before = it;
            match it.next() {
                Some(c) => {
                    proof {
                        assert(out@.push(c) + it.remaining() =~= out@ + before.remaining());
                    }
                    out.push(c);
                },
                None => {
                    proof {
                        assert(out@ + it.remaining() =~= out@);
                    }
                    break;
                },
            }
        }
        proof {
            assert(out@ =~= line@);
            assert(views(out@) =~= out@);
        }
        out
    }
}

/// Space, tab, line feed, form feed and carriage return.
pub open spec fn is_ascii_ws(c: char) -> bool {
    c == ' ' || c == '\t' || c == '\n' || c == '\x0C' || c == '\r'
}

fn ascii_ws(c: char) -> (r: bool)
    ensures
        r == is_ascii_ws(c),
{
    c == ' ' || c == '\t' || c == '\n' || c == '\x0C' || c == '\r'
}

/// The word in progress `cur` if it is not empty.
pub open spec fn pending(cur: Seq<char>) -> Seq<Seq<char>> {
    if cur.len() == 0 {
        Seq::empty()
    } else {
        seq![cur]
    }
}

/// The words of `s`, read from the left, after a word in progress `cur`.
pub open spec fn words_from(s: Seq<char>, cur: Seq<char>) -> Seq<Seq<char>>
    decreases s.len(),
{
    if s.len() == 0 {
        pending(cur)
    } else if is_ascii_ws(s[0]) {
        pending(cur) + words_from(s.drop_first(), Seq::empty())
    } else {
        words_from(s.drop_first(), cur.push(s[0]))
    }
}

/// The maximal runs of characters other than ASCII whitespace, in order.
pub open spec fn ascii_words(s: Seq<char>) -> Seq<Seq<char>> {
    words_from(s, Seq::empty())
}

proof fn lemma_words_from_len(s: Seq<char>, cur: Seq<char>)
    ensures
        words_from(s, cur).len() <= s.len() + (if cur.len() == 0 { 0int } else { 1int }),
    decreases s.len(),
{
    if s.len() > 0 {
        if is_ascii_ws(s[0]) {
            lemma_words_from_len(s.drop_first(), Seq::empty());
        } else {
            lemma_words_from_len(s.drop_first(), cur.push(s[0]));
        }
    }
}

impl Tokenizer<String> for Words {
    open spec fn tokens_of(&self, line: Seq<char>) -> Seq<Seq<char>> {
        ascii_words(line)
    }

    proof fn lemma_tokens_len(&self, line: Seq<char>) {
        lemma_words_from_len(line, Seq::empty());
    }

    fn tokenize(&self, line: &str) -> (r: Vec<String>) {
        broadcast use vstd::string::group_string_axioms;
        let mut it = line.chars();
        let mut out: Vec<String> = Vec::new();
        let mut cur: Vec<char> = Vec::new();
        proof {
            assert(views(out@) + words_from(it.remaining(), cur@) =~= ascii_words(line@));
        }
        loop
            invariant
                views(out@) + words_from(it.remaining(), cur@) == ascii_words(line@),
                it.decrease() is Some,
            ensures
                views(out@) + pending(cur@) == ascii_words(line@),
            decreases it.decrease()->0,
        {
            let ghost rest = it.remaining();
            let ghost before = views(out@);
            match it.next() {
                Some(c) => {
                    proof {
                        assert(rest[0] == c);
                        assert(rest.drop_first() == it.remaining());
                    }
                    if ascii_ws(c) {
                        proof {
                            assert(words_from(rest, cur@) == pending(cur@) + words_from(it.remaining(), Seq::empty()));
                            assert(before + (pending(cur@) + words_from(it.remaining(), Seq::empty()))
                                =~= (before + pending(cur@)) + words_from(it.remaining(), Seq::empty()));
                        }
                        if cur.len() > 0 {
                            let w = string_of(&cur);
                            proof {
                                assert(views(out@.push(w)) =~= before + pending(cur@));
                            }
                            out.push(w);
                        } else {
                            proof {
                                assert(pending(cur@) =~= Seq::<Seq<char>>::empty());
                                assert(views(out@) + pending(cur@) =~= views(out@));
                            }
                        }
                        cur = Vec::new();
                        proof {
                            assert(cur@ =~= Seq::<char>::empty());
                        }
                    } else {
                        proof {
                            assert(words_from(rest, cur@) == words_from(it.remaining(), cur@.push(c)));
                        }
                        cur.push(c);
                    }
                },
                None => {
                    proof {
                        assert(rest.len() == 0);
                    }
                    break;
                },
            }
        }
        if cur.len() > 0 {
            let w = string_of(&cur);
            proof {
                assert(views(out@.push(w)) =~= views(out@) + pending(cur@));
            }
            out.push(w);
        } else {
            proof {
                assert(views(out@) + pending(cur@) =~= views(out@));
            }
        }
        out
    }
}

} // verus!
