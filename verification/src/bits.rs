//! The bit-vector sets that back adjacency rows, as the `bit-set` crate provides them.

use bit_set::BitSet;
use vstd::prelude::*;

verus! {

/// `bit_set::BitSet`, a set of small integers held as a vector of bits. What is in
/// it is known through the functions below only.
#[verifier::external_type_specification]
#[verifier::external_body]
#[verifier::reject_recursive_types(B)]
pub struct ExBitSet<B>(BitSet<B>);

/// The integers that a bit set holds.
pub uninterp spec fn bitset_members(s: BitSet<u32>) -> Set<usize>;

/// `BitSet::with_capacity`: a set with room for `nbits` values and none in it.
#[verifier::external_body]
pub(crate) fn bitset_with_capacity(nbits: usize) -> (s: BitSet<u32>)
    ensures
        bitset_members(s) == Set::<usize>::empty(),
{
    BitSet::with_capacity(nbits)
}

/// `BitSet::insert`: afterwards the set holds `value` besides what it held, and the
/// result tells whether `value` is new to it. The crate grows the set by
/// `value - len + 1` bits, which overflows for the largest `usize`.
#[verifier::external_body]
pub(crate) fn bitset_insert(s: &mut BitSet<u32>, value: usize) -> (fresh: bool)
    requires
        value < usize::MAX,
    ensures
        bitset_members(*final(s)) == bitset_members(*old(s)).insert(value),
        fresh == !bitset_members(*old(s)).contains(value),
{
    s.insert(value)
}

/// `BitSet::contains`: whether the set holds `value`.
#[verifier::external_body]
pub(crate) fn bitset_contains(s: &BitSet<u32>, value: usize) -> (held: bool)
    ensures
        held == bitset_members(*s).contains(value),
{
    s.contains(value)
}

/// `BitSet::len`: the number of values in the set.
#[verifier::external_body]
pub(crate) fn bitset_len(s: &BitSet<u32>) -> (count: usize)
    ensures
        bitset_members(*s).finite() ==> count == bitset_members(*s).len(),
{
    s.len()
}

} // verus!
