use vstd::prelude::*;

verus! {

/// Declares `bit_vec::BitVec` so its values can cross verified signatures.
#[verifier::external_type_specification]
#[verifier::external_body]
#[verifier::reject_recursive_types(B)]
pub struct ExBitVec<B>(bit_vec::BitVec<B>);

/// The bits a `bit_vec::BitVec` holds, in index order.
pub uninterp spec fn bits_of(b: bit_vec::BitVec<u32>) -> Seq<bool>;

/// Relies on bit_vec::BitVec::from_elem: a vector of `len` bits, every one
/// equal to `bit`.
#[verifier::external_body]
pub(crate) fn bv_from_elem(len: usize, bit: bool) -> (r: bit_vec::BitVec<u32>)
    ensures
        bits_of(r) == Seq::new(len as nat, |i: int| bit),
{
    bit_vec::BitVec::from_elem(len, bit)
}

/// Relies on bit_vec::BitVec::len: the number of bits held.
#[verifier::external_body]
pub(crate) fn bv_len(b: &bit_vec::BitVec<u32>) -> (r: usize)
    ensures
        r == bits_of(*b).len(),
{
    b.len()
}

/// Relies on bit_vec::BitVec::get: the bit at `i`, which exists because
/// `i` is in bounds.
#[verifier::external_body]
pub(crate) fn bv_get(b: &bit_vec::BitVec<u32>, i: usize) -> (r: bool)
    requires
        i < bits_of(*b).len(),
    ensures
        r == bits_of(*b)[i as int],
{
    b.get(i).unwrap()
}

/// Relies on bit_vec::BitVec::set: writes the bit at `i`, which must be in
/// bounds, and leaves every other bit alone.
#[verifier::external_body]
pub(crate) fn bv_set(b: &mut bit_vec::BitVec<u32>, i: usize, bit: bool)
    requires
        i < bits_of(*old(b)).len(),
    ensures
        bits_of(*final(b)) == bits_of(*old(b)).update(i as int, bit),
{
    b.set(i, bit)
}

/// Relies on bit_vec::BitVec::and: the pointwise conjunction of two vectors
/// of equal length, stored into the first.
#[verifier::external_body]
pub(crate) fn bv_and(a: &mut bit_vec::BitVec<u32>, b: &bit_vec::BitVec<u32>)
    requires
        bits_of(*old(a)).len() == bits_of(*b).len(),
    ensures
        bits_of(*final(a)) == Seq::new(
            bits_of(*old(a)).len(),
            |i: int| bits_of(*old(a))[i] && bits_of(*b)[i],
        ),
{
    a.and(b);
}

/// Relies on bit_vec::BitVec::or: the pointwise disjunction of two vectors
/// of equal length, stored into the first.
#[verifier::external_body]
pub(crate) fn bv_or(a: &mut bit_vec::BitVec<u32>, b: &bit_vec::BitVec<u32>)
    requires
        bits_of(*old(a)).len() == bits_of(*b).len(),
    ensures
        bits_of(*final(a)) == Seq::new(
            bits_of(*old(a)).len(),
            |i: int| bits_of(*old(a))[i] || bits_of(*b)[i],
        ),
{
    a.or(b);
}

/// Relies on bit_vec::BitVec::negate: flips every bit in place.
#[verifier::external_body]
pub(crate) fn bv_negate(a: &mut bit_vec::BitVec<u32>)
    ensures
        bits_of(*final(a)) == Seq::new(bits_of(*old(a)).len(), |i: int| !bits_of(*old(a))[i]),
{
    a.negate()
}

/// Relies on bit_vec::BitVec's PartialEq: two vectors are equal exactly when
/// they hold the same number of bits and the bits agree.
#[verifier::external_body]
pub(crate) fn bv_eq(a: &bit_vec::BitVec<u32>, b: &bit_vec::BitVec<u32>) -> (r: bool)
    ensures
        r == (bits_of(*a) == bits_of(*b)),
{
    a == b
}

/// Relies on bit_vec::BitVec's Clone: the copy holds the same bits.
#[verifier::external_body]
pub(crate) fn bv_clone(b: &bit_vec::BitVec<u32>) -> (r: bit_vec::BitVec<u32>)
    ensures
        bits_of(r) == bits_of(*b),
{
    b.clone()
}

} // verus!
