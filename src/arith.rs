//! Greatest common divisor.
use vstd::prelude::*;
use vstd::arithmetic::div_mod::{lemma_mod_self_0, lemma_small_mod};

verus! {

/// Euclid's greatest common divisor.
pub open spec fn gcd_spec(a: nat, b: nat) -> nat
    decreases b,
{
    if b == 0 {
        a
    } else {
        gcd_spec(b, a % b)
    }
}

/// The greatest common divisor of two positive numbers.
pub fn gcd(n: u64, m: u64) -> (r: u64)
    requires
        n != 0,
        m != 0,
    ensures
        r == gcd_spec(n as nat, m as nat),
        r != 0,
{
    let ghost g = gcd_spec(n as nat, m as nat);
    let mut n: u64 = n;
    let mut m: u64 = m;
    while m != 0
        invariant
            n != 0,
            gcd_spec(n as nat, m as nat) == g,
        decreases m,
    {
        let ghost (a, b) = (n as nat, m as nat);
        if m < n {
            let t = n;
            n = m;
            m = t;
            m = m % n;
            assert(gcd_spec(a, b) == gcd_spec(b, a % b));
        } else {
            m = m % n;
            proof {
                assert(gcd_spec(a, b) == gcd_spec(b, a % b));
                if b > a {
                    lemma_small_mod(a, b);
                    assert(gcd_spec(b, a) == gcd_spec(a, b % a));
                } else {
                    lemma_mod_self_0(a as int);
                    assert(gcd_spec(a, 0) == a);
                }
            }
        }
    }
    n
}

} // verus!
