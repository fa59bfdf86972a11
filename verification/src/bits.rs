use vstd::prelude::*;
use fixedbitset::FixedBitSet;

verus! {

#[verifier::external_type_specification]
#[verifier::external_body]
pub struct ExFixedBitSet(FixedBitSet);

/// The set of bit indices enabled in a bitset.
pub uninterp spec fn bits_of(s: FixedBitSet) -> Set<int>;

/// The bit capacity a bitset was created with.
pub uninterp spec fn bit_len(s: FixedBitSet) -> nat;

/// Relies on FixedBitSet::with_capacity: a fresh bitset of the given
/// capacity with every bit clear.
#[verifier::external_body]
pub fn fbs_with_capacity(bits: usize) -> (r: FixedBitSet)
    ensures
        bit_len(r) == bits,
        bits_of(r) == Set::<int>::empty(),
{
    FixedBitSet::with_capacity(bits)
}

/// Relies on FixedBitSet::insert: enables one bit below the capacity.
#[verifier::external_body]
pub fn fbs_insert(s: &mut FixedBitSet, bit: usize)
    requires
        (bit as int) < bit_len(*old(s)),
    ensures
        bit_len(*final(s)) == bit_len(*old(s)),
        bits_of(*final(s)) == bits_of(*old(s)).insert(bit as int),
{
    s.insert(bit)
}

/// Relies on FixedBitSet::intersect_with: keeps exactly the bits
/// enabled in both operands; the capacity stays as it was.
#[verifier::external_body]
pub fn fbs_intersect_with(s: &mut FixedBitSet, other: &FixedBitSet)
    ensures
        bit_len(*final(s)) == bit_len(*old(s)),
        bits_of(*final(s)) == bits_of(*old(s)).intersect(bits_of(*other)),
{
    s.intersect_with(other)
}

/// Relies on FixedBitSet::ones: the enabled bits, in ascending order.
#[verifier::external_body]
pub fn fbs_ones(s: &FixedBitSet) -> (r: Vec<usize>)
    ensures
        forall|k: int| 0 <= k < r@.len() ==> bits_of(*s).contains((#[trigger] r@[k]) as int),
        forall|x: int|
            bits_of(*s).contains(x) ==> exists|k: int| 0 <= k < r@.len() && r@[k] as int == x,
        forall|k1: int, k2: int| 0 <= k1 < k2 < r@.len() ==> r@[k1] < r@[k2],
{
    s.ones().collect()
}

} // verus!
