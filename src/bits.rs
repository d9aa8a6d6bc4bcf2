//! Bit sequences: the codes of the encoder and the encoded lines are
//! `bit_vec::BitVec` values, read through `bits_of` and `bits_wf`. Bits from
//! outside the library come in through `bits_from`, which builds a well-formed
//! vector, and go out through `bools_of`.
use vstd::prelude::*;
use bit_vec::BitVec;

verus! {

#[verifier::external_type_specification]
#[verifier::external_body]
#[verifier::reject_recursive_types(B)]
pub struct ExBitVec<B>(BitVec<B>);

/// The bits that a `BitVec` holds, first bit first: the first `nbits` bits
/// of its storage.
pub uninterp spec fn bits_of(b: BitVec) -> Seq<bool>;

/// The `BitVec` is well formed: its storage has exactly the blocks that its
/// `nbits` bits need, and the bits of the last block past `nbits` are zero,
/// as every vector that `BitVec`'s own methods build. A vector deserialized
/// through its derived `Deserialize` need not be.
pub uninterp spec fn bits_wf(b: BitVec) -> bool;

/// Relies on `BitVec::new`: a well-formed vector of no bits.
#[verifier::external_body]
pub(crate) fn bits_new() -> (r: BitVec)
    ensures
        bits_of(r) == Seq::<bool>::empty(),
        bits_wf(r),
{
    BitVec::new()
}

/// Relies on `BitVec::push`: on a well-formed vector the bit is appended at
/// the end (a block is added when the last one is full), and the vector stays
/// well formed; it panics only when the length would pass `usize::MAX`.
#[verifier::external_body]
pub(crate) fn bits_push(b: &mut BitVec, bit: bool)
    requires
        bits_wf(*old(b)),
        bits_of(*old(b)).len() < usize::MAX,
    ensures
        bits_of(*final(b)) == bits_of(*old(b)).push(bit),
        bits_wf(*final(b)),
{
    b.push(bit)
}

/// Relies on `BitVec::len`: the number of bits held, `nbits`.
#[verifier::external_body]
pub(crate) fn bits_len(b: &BitVec) -> (r: usize)
    ensures
        r as int == bits_of(*b).len(),
{
    b.len()
}

/// Relies on `BitVec::get`: on a well-formed vector, the bit at index `i`,
/// `None` past the end.
#[verifier::external_body]
pub(crate) fn bits_get(b: &BitVec, i: usize) -> (r: Option<bool>)
    requires
        bits_wf(*b),
    ensures
        i < bits_of(*b).len() ==> r == Some(bits_of(*b)[i as int]),
        i >= bits_of(*b).len() ==> r is None,
{
    b.get(i)
}

/// Relies on `BitVec::clone`: a copy of the storage and the length.
#[verifier::external_body]
pub(crate) fn bits_clone(b: &BitVec) -> (r: BitVec)
    ensures
        bits_of(r) == bits_of(*b),
        bits_wf(*b) ==> bits_wf(r),
{
    b.clone()
}

/// Relies on `BitVec`'s `Extend<bool>` over `&BitVec`: the bits of a
/// well-formed `other` are pushed one by one at the end of a well-formed `b`.
#[verifier::external_body]
pub(crate) fn bits_extend(b: &mut BitVec, other: &BitVec)
    requires
        bits_wf(*old(b)),
        bits_wf(*other),
        bits_of(*old(b)).len() + bits_of(*other).len() < usize::MAX,
    ensures
        bits_of(*final(b)) == bits_of(*old(b)) + bits_of(*other),
        bits_wf(*final(b)),
{
    b.extend(other)
}

/// Relies on `BitVec`'s `PartialEq`: for well-formed vectors, equal lengths
/// and equal storage blocks, that is equal bits.
#[verifier::external_body]
pub(crate) fn bits_eq(a: &BitVec, b: &BitVec) -> (r: bool)
    requires
        bits_wf(*a),
        bits_wf(*b),
    ensures
        r == (bits_of(*a) == bits_of(*b)),
{
    a == b
}

/// A well-formed bit vector holding the given bits.
pub fn bits_from(v: &Vec<bool>) -> (r: BitVec)
    requires
        v@.len() < usize::MAX,
    ensures
        bits_of(r) == v@,
        bits_wf(r),
{
    let mut r = bits_new();
    let mut i: usize = 0;
    while i < v.len()
        invariant
            i <= v@.len(),
            v@.len() < usize::MAX,
            bits_wf(r),
            bits_of(r) == v@.subrange(0, i as int),
        decreases v@.len() - i,
    {
        bits_push(&mut r, v[i]);
        proof {
            assert(v@.subrange(0, i + 1) =~= v@.subrange(0, i as int).push(v@[i as int]));
        }
        i = i + 1;
    }
    proof {
        assert(v@.subrange(0, i as int) =~= v@);
    }
    r
}

/// The bits of a well-formed bit vector.
pub fn bools_of(b: &BitVec) -> (r: Vec<bool>)
    requires
        bits_wf(*b),
    ensures
        r@ == bits_of(*b),
{
    let n = bits_len(b);
    let mut r: Vec<bool> = Vec::new();
    let mut i: usize = 0;
    while i < n
        invariant
            n == bits_of(*b).len(),
            bits_wf(*b),
            i <= n,
            r@ == bits_of(*b).subrange(0, i as int),
        decreases n - i,
    {
        let x = match bits_get(b, i) {
            Some(x) => x,
            None => false,
        };
        r.push(x);
        proof {
            assert(r@ =~= bits_of(*b).subrange(0, i + 1));
        }
        i = i + 1;
    }
    proof {
        assert(r@ =~= bits_of(*b));
    }
    r
}

} // verus!
