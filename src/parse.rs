//! Parsing delimited text: a pair of values around a separator, as in
//! `800x600`, and text between a pair of delimiters, as in `{1,2}`.
use vstd::prelude::*;
use std::str::FromStr;

verus! {

/// Splits `s` at the first `sep`: the text before it and the text after it.
pub fn split_once(s: &str, sep: char) -> (r: Option<(&str, &str)>)
    ensures
        r is None <==> !s@.contains(sep),
        r matches Some((a, b)) ==> {
            let i = a@.len() as int;
            &&& 0 <= i < s@.len()
            &&& s@[i] == sep
            &&& forall|j: int| 0 <= j < i ==> s@[j] != sep
            &&& a@ == s@.subrange(0, i)
            &&& b@ == s@.subrange(i + 1, s@.len() as int)
        },
{
    let n = s.unicode_len();
    let mut i: usize = 0;
    while i < n
        invariant
            n == s@.len(),
            i <= n,
            forall|j: int| 0 <= j < i ==> s@[j] != sep,
        decreases n - i,
    {
        if s.get_char(i) == sep {
            let a = s.substring_char(0, i);
            let b = s.substring_char(i + 1, n);
            return Some((a, b));
        }
        i = i + 1;
    }
    None
}

/// Unicode `White_Space`, as `char::is_whitespace` documents it.
pub open spec fn is_white_space(c: char) -> bool {
    ('\u{9}' <= c && c <= '\u{d}') || c == ' ' || c == '\u{85}' || c == '\u{a0}' || c == '\u{1680}'
        || ('\u{2000}' <= c && c <= '\u{200a}') || c == '\u{2028}' || c == '\u{2029}' || c == '\u{202f}'
        || c == '\u{205f}' || c == '\u{3000}'
}

fn white_space(c: char) -> (r: bool)
    ensures
        r == is_white_space(c),
{
    ('\u{9}' <= c && c <= '\u{d}') || c == ' ' || c == '\u{85}' || c == '\u{a0}' || c == '\u{1680}'
        || ('\u{2000}' <= c && c <= '\u{200a}') || c == '\u{2028}' || c == '\u{2029}' || c == '\u{202f}'
        || c == '\u{205f}' || c == '\u{3000}'
}

/// `s` without its leading white space.
pub open spec fn trim_start(s: Seq<char>) -> Seq<char>
    decreases s.len(),
{
    if s.len() > 0 && is_white_space(s[0]) {
        trim_start(s.drop_first())
    } else {
        s
    }
}

/// `s` without its trailing white space.
pub open spec fn trim_end(s: Seq<char>) -> Seq<char>
    decreases s.len(),
{
    if s.len() > 0 && is_white_space(s.last()) {
        trim_end(s.drop_last())
    } else {
        s
    }
}

/// `s` without leading and trailing white space.
pub open spec fn trimmed(s: Seq<char>) -> Seq<char> {
    trim_end(trim_start(s))
}

/// Removes leading and trailing white space.
pub fn trim(s: &str) -> (r: &str)
    ensures
        r@ == trimmed(s@),
{
    let n = s.unicode_len();
    let mut a: usize = 0;
    proof {
        assert(s@.subrange(0, n as int) =~= s@);
    }
    while a < n && white_space(s.get_char(a))
        invariant
            n == s@.len(),
            a <= n,
            trim_start(s@) == trim_start(s@.subrange(a as int, n as int)),
        decreases n - a,
    {
        proof {
            assert(s@.subrange(a as int, n as int).drop_first() =~= s@.subrange(a + 1, n as int));
        }
        a = a + 1;
    }
    let ghost front = s@.subrange(a as int, n as int);
    proof {
        assert(trim_start(front) == front);
    }
    let mut b: usize = n;
    proof {
        assert(s@.subrange(a as int, b as int) =~= front);
    }
    while b > a && white_space(s.get_char(b - 1))
        invariant
            n == s@.len(),
            a <= b <= n,
            front == s@.subrange(a as int, n as int),
            trim_end(front) == trim_end(s@.subrange(a as int, b as int)),
        decreases b - a,
    {
        proof {
            assert(s@.subrange(a as int, b as int).drop_last() =~= s@.subrange(a as int, b - 1));
        }
        b = b - 1;
    }
    s.substring_char(a, b)
}

/// The index of the first `c` in `s`.
fn index_of(s: &str, c: char) -> (r: Option<usize>)
    ensures
        r matches Some(i) ==> i < s@.len() && s@[i as int] == c && forall|j: int| 0 <= j < i ==> s@[j] != c,
        r is None ==> !s@.contains(c),
{
    let n = s.unicode_len();
    let mut i: usize = 0;
    while i < n
        invariant
            n == s@.len(),
            i <= n,
            forall|j: int| 0 <= j < i ==> s@[j] != c,
        decreases n - i,
    {
        if s.get_char(i) == c {
            return Some(i);
        }
        i = i + 1;
    }
    None
}

/// `t` opens with `l` and its first `r` is its last character: the text in
/// between.
pub open spec fn enclosed(t: Seq<char>, l: char, r: char) -> bool {
    &&& t.len() > 0
    &&& t[0] == l
    &&& t.last() == r
    &&& forall|j: int| 0 <= j < t.len() - 1 ==> t[j] != r
}

/// The text between `l` and `r` where `s`, trimmed, opens with `l` and first
/// has `r` at its end.
pub fn open_close_p(s: &str, l: char, r: char) -> (res: Option<&str>)
    requires
        !(l == r && trimmed(s@) == seq![l]),
    ensures
        res is Some <==> enclosed(trimmed(s@), l, r),
        res matches Some(x) ==> x@ == trimmed(s@).subrange(1, trimmed(s@).len() - 1),
{
    let t = trim(s);
    match index_of(t, l) {
        Some(0) => match index_of(t, r) {
            Some(rix) => {
                if rix == t.unicode_len() - 1 {
                    proof {
                        if rix == 0 {
                            assert(t@ =~= seq![l]);
                        }
                    }
                    Some(t.substring_char(1, rix))
                } else {
                    None
                }
            },
            None => None,
        },
        _ => {
            proof {
                if t@.len() > 0 {
                    assert(t@[0] != l) by {
                        if t@[0] == l {
                            assert(t@.contains(l));
                        }
                    }
                }
            }
            None
        },
    }
}

/// The text inside braces, as in `{1.5,-2}`.
pub fn braces_p(s: &str) -> (res: Option<&str>)
    ensures
        res is Some <==> enclosed(trimmed(s@), '{', '}'),
        res matches Some(x) ==> x@ == trimmed(s@).subrange(1, trimmed(s@).len() - 1),
{
    open_close_p(s, '{', '}')
}

/// The text inside parentheses, as in `(1.5,-2)`.
pub fn parens_p(s: &str) -> (res: Option<&str>)
    ensures
        res is Some <==> enclosed(trimmed(s@), '(', ')'),
        res matches Some(x) ==> x@ == trimmed(s@).subrange(1, trimmed(s@).len() - 1),
{
    open_close_p(s, '(', ')')
}

/// Relies on `FromStr::from_str` of `T`: the value that `s` spells, if any.
#[verifier::external_body]
fn parse_value<T: FromStr>(s: &str) -> (r: Option<T>) {
    T::from_str(s).ok()
}

/// Parses two values separated by the first `sep` in `s`; `None` where `s`
/// has no `sep` or either side does not parse.
pub fn pair_p<T: FromStr>(s: &str, sep: char) -> (r: Option<(T, T)>)
    ensures
        !s@.contains(sep) ==> r is None,
{
    match split_once(s, sep) {
        None => None,
        Some((a, b)) => match (parse_value::<T>(a), parse_value::<T>(b)) {
            (Some(l), Some(r)) => Some((l, r)),
            _ => None,
        },
    }
}

} // verus!
