//! Trusted interface to `fixedbitset::FixedBitSet`, the bit set that the
//! scheduler uses to track pending, completed and ready systems.

use vstd::prelude::*;
use fixedbitset::FixedBitSet;

verus! {

#[verifier::external_type_specification]
#[verifier::external_body]
pub struct ExFixedBitSet(FixedBitSet);

/// The indices of the enabled bits of a `FixedBitSet`.
pub uninterp spec fn bitset_ones(s: FixedBitSet) -> Set<usize>;

/// The length in bits that a `FixedBitSet` was made with.
pub uninterp spec fn bitset_len(s: FixedBitSet) -> nat;

/// `FixedBitSet::with_capacity`: a set of `bits` bits, all of them clear.
#[verifier::external_body]
pub(crate) fn bitset_with_capacity(bits: usize) -> (r: FixedBitSet)
    ensures
        bitset_len(r) == bits,
        bitset_ones(r) == Set::<usize>::empty(),
{
    FixedBitSet::with_capacity(bits)
}

/// `FixedBitSet::insert_range(..)`: enables every bit below the length.
#[verifier::external_body]
pub(crate) fn bitset_insert_all(s: &mut FixedBitSet)
    ensures
        bitset_len(*final(s)) == bitset_len(*old(s)),
        bitset_ones(*final(s)) == Set::new(|i: usize| i < bitset_len(*old(s))),
{
    s.insert_range(..)
}

/// `FixedBitSet::clear`: disables every bit, keeping the length.
#[verifier::external_body]
pub(crate) fn bitset_clear(s: &mut FixedBitSet)
    ensures
        bitset_len(*final(s)) == bitset_len(*old(s)),
        bitset_ones(*final(s)) == Set::<usize>::empty(),
{
    s.clear()
}

/// `FixedBitSet::insert`: enables one bit below the length (it panics
/// above it).
#[verifier::external_body]
pub(crate) fn bitset_insert(s: &mut FixedBitSet, bit: usize)
    requires
        bit < bitset_len(*old(s)),
    ensures
        bitset_len(*final(s)) == bitset_len(*old(s)),
        bitset_ones(*final(s)) == bitset_ones(*old(s)).insert(bit),
{
    s.insert(bit)
}

/// `FixedBitSet::set`: enables or disables one bit below the length (it
/// panics above it).
#[verifier::external_body]
pub(crate) fn bitset_set(s: &mut FixedBitSet, bit: usize, enabled: bool)
    requires
        bit < bitset_len(*old(s)),
    ensures
        bitset_len(*final(s)) == bitset_len(*old(s)),
        bitset_ones(*final(s)) == (if enabled {
            bitset_ones(*old(s)).insert(bit)
        } else {
            bitset_ones(*old(s)).remove(bit)
        }),
{
    s.set(bit, enabled)
}

/// `FixedBitSet::contains`: whether the bit is enabled.
#[verifier::external_body]
pub(crate) fn bitset_contains(s: &FixedBitSet, bit: usize) -> (r: bool)
    ensures
        r == bitset_ones(*s).contains(bit),
{
    s.contains(bit)
}

/// `FixedBitSet::difference_with`: disables every bit that `other` enables.
#[verifier::external_body]
pub(crate) fn bitset_difference_with(s: &mut FixedBitSet, other: &FixedBitSet)
    ensures
        bitset_len(*final(s)) == bitset_len(*old(s)),
        bitset_ones(*final(s)) == bitset_ones(*old(s)).difference(bitset_ones(*other)),
{
    s.difference_with(other)
}

/// `FixedBitSet::ones`, collected: the enabled bits in increasing order.
#[verifier::external_body]
pub(crate) fn bitset_ones_vec(s: &FixedBitSet) -> (r: Vec<usize>)
    ensures
        forall|i: int, j: int| 0 <= i < j < r@.len() ==> r@[i] < r@[j],
        forall|b: usize| bitset_ones(*s).contains(b) <==> r@.contains(b),
{
    s.ones().collect()
}

} // verus!
