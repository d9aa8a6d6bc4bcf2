//! Lexicographic order on character sequences, as `String`'s `Ord` orders
//! them (by code point).
use vstd::prelude::*;

verus! {

/// `a` comes before `b` or equals it.
pub open spec fn lex_le(a: Seq<char>, b: Seq<char>) -> bool
    decreases a.len(),
{
    if a.len() == 0 {
        true
    } else if b.len() == 0 {
        false
    } else if a[0] != b[0] {
        a[0] < b[0]
    } else {
        lex_le(a.drop_first(), b.drop_first())
    }
}

pub proof fn lemma_lex_total(a: Seq<char>, b: Seq<char>)
    ensures
        lex_le(a, b) || lex_le(b, a),
    decreases a.len(),
{
    if a.len() > 0 && b.len() > 0 && a[0] == b[0] {
        lemma_lex_total(a.drop_first(), b.drop_first());
    }
}

pub proof fn lemma_lex_antisym(a: Seq<char>, b: Seq<char>)
    requires
        lex_le(a, b),
        lex_le(b, a),
    ensures
        a == b,
    decreases a.len(),
{
    if a.len() == 0 {
        assert(b.len() == 0);
        assert(a =~= b);
    } else {
        lemma_lex_antisym(a.drop_first(), b.drop_first());
        assert(a =~= seq![a[0]] + a.drop_first());
        assert(b =~= seq![b[0]] + b.drop_first());
    }
}

pub proof fn lemma_lex_trans(a: Seq<char>, b: Seq<char>, c: Seq<char>)
    requires
        lex_le(a, b),
        lex_le(b, c),
    ensures
        lex_le(a, c),
    decreases a.len(),
{
    if a.len() > 0 && b.len() > 0 && c.len() > 0 && a[0] == b[0] && b[0] == c[0] {
        lemma_lex_trans(a.drop_first(), b.drop_first(), c.drop_first());
    }
}

/// Whether `a` comes before `b` or equals it.
pub fn str_le(a: &String, b: &String) -> (r: bool)
    ensures
        r == lex_le(a@, b@),
{
    let n = a.as_str().unicode_len();
    let m = b.as_str().unicode_len();
    let mut i: usize = 0;
    proof {
        assert(a@.subrange(0, n as int) =~= a@);
        assert(b@.subrange(0, m as int) =~= b@);
    }
    while i < n && i < m
        invariant
            n == a@.len(),
            m == b@.len(),
            i <= n,
            i <= m,
            lex_le(a@, b@) == lex_le(a@.subrange(i as int, n as int), b@.subrange(i as int, m as int)),
        decreases n - i,
    {
        let x = a.as_str().get_char(i);
        let y = b.as_str().get_char(i);
        let ghost sa = a@.subrange(i as int, n as int);
        let ghost sb = b@.subrange(i as int, m as int);
        proof {
            assert(sa[0] == x && sb[0] == y);
            assert(sa.drop_first() =~= a@.subrange(i + 1, n as int));
            assert(sb.drop_first() =~= b@.subrange(i + 1, m as int));
        }
        if x != y {
            return x < y;
        }
        i = i + 1;
    }
    i == n
}

} // verus!
