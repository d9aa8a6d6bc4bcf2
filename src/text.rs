//! Building strings.
use vstd::prelude::*;

verus! {

/// Relies on `String`'s `FromIterator<char>`: the characters, in order.
#[verifier::external_body]
pub(crate) fn string_of(chars: &Vec<char>) -> (r: String)
    ensures
        r@ == chars@,
{
    chars.iter().collect()
}

/// `n` copies of `c`.
pub open spec fn repeated(c: char, n: nat) -> Seq<char> {
    Seq::new(n, |i: int| c)
}

/// Appends `n` copies of `c`.
pub fn push_repeated(out: &mut Vec<char>, c: char, n: usize)
    ensures
        final(out)@ == old(out)@ + repeated(c, n as nat),
{
    let ghost start = out@;
    let mut i: usize = 0;
    while i < n
        invariant
            i <= n,
            out@ == start + repeated(c, i as nat),
        decreases n - i,
    {
        out.push(c);
        i = i + 1;
        proof {
            assert(out@ =~= start + repeated(c, i as nat));
        }
    }
}

} // verus!
