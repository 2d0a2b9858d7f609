use vstd::prelude::*;
use fixedbitset::FixedBitSet;

verus! {

/// The bit set of `fixedbitset`, carried through as an opaque value.
#[verifier::external_type_specification]
#[verifier::external_body]
pub struct ExFixedBitSet(FixedBitSet);

/// The enabled bits of a bit set.
pub uninterp spec fn bitset_ones(b: FixedBitSet) -> Set<usize>;

/// The length of a bit set, in bits (enabled or not).
pub uninterp spec fn bitset_len(b: FixedBitSet) -> nat;

/// Every enabled bit lies below the length: the crate keeps the bits past the length clear.
pub open spec fn bitset_wf(b: FixedBitSet) -> bool {
    forall|i: usize| #[trigger] bitset_ones(b).contains(i) ==> i < bitset_len(b)
}

/// Calls `FixedBitSet::new`: no bits, none enabled.
#[verifier::external_body]
pub fn bitset_new() -> (b: FixedBitSet)
    ensures
        bitset_ones(b) == Set::<usize>::empty(),
        bitset_len(b) == 0,
        bitset_wf(b),
{
    FixedBitSet::new()
}

/// Calls `FixedBitSet::contains`, which reports whether `bit` is enabled (bits past the
/// length are never enabled).
#[verifier::external_body]
pub fn bitset_contains(b: &FixedBitSet, bit: usize) -> (r: bool)
    ensures
        r == bitset_ones(*b).contains(bit),
{
    b.contains(bit)
}

/// Calls `FixedBitSet::grow`, which raises the length to `bits` when that is larger and
/// leaves every bit's state unchanged.
#[verifier::external_body]
pub fn bitset_grow(b: &mut FixedBitSet, bits: usize)
    ensures
        bitset_ones(*final(b)) == bitset_ones(*old(b)),
        bitset_len(*final(b)) == if bits > bitset_len(*old(b)) {
            bits as nat
        } else {
            bitset_len(*old(b))
        },
        bitset_wf(*old(b)) ==> bitset_wf(*final(b)),
{
    b.grow(bits)
}

/// Calls `FixedBitSet::set`, which enables or clears `bit`; it panics when `bit` is not below
/// the length, which the precondition rules out.
#[verifier::external_body]
pub fn bitset_set(b: &mut FixedBitSet, bit: usize, enabled: bool)
    requires
        bit < bitset_len(*old(b)),
    ensures
        bitset_len(*final(b)) == bitset_len(*old(b)),
        bitset_ones(*final(b)) == if enabled {
            bitset_ones(*old(b)).insert(bit)
        } else {
            bitset_ones(*old(b)).remove(bit)
        },
        bitset_wf(*old(b)) ==> bitset_wf(*final(b)),
{
    b.set(bit, enabled)
}

} // verus!
