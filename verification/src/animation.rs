//! The integer step of the fast reciprocal square root that animation blending uses.
use vstd::prelude::*;

verus! {

/// The magic constant of the refined fast inverse square root.
pub const RSQRT_MAGIC: u32 = 0x5f1f_fff9;

/// The bits of an `f32`, read as a signed 32-bit integer.
pub open spec fn signed_bits(bits: u32) -> int {
    if bits < 0x8000_0000 { bits as int } else { bits as int - 0x1_0000_0000 }
}

/// The first estimate of `1 / sqrt(x)`, as the bits of an `f32`, from the bits of `x`: the magic
/// constant minus half of those bits read as a signed integer (rounded down, as an arithmetic
/// shift does). The bits are those for which that difference fits in a signed 32-bit integer:
/// every non-negative `x`, and the negative ones whose bits are at least `0xBE3F_FFF4`.
pub fn rsqrt_seed(bits: u32) -> (r: u32)
    requires
        bits < 0x8000_0000 || bits >= 0xBE3F_FFF4,
    ensures
        r as int == RSQRT_MAGIC as int - signed_bits(bits) / 2,
        r < 0x8000_0000,
{
    if bits < 0x8000_0000 {
        RSQRT_MAGIC - bits / 2
    } else {
        // the bits stand for -n; half of -n rounded down is minus half of n rounded up
        let n: u32 = (u32::MAX - bits) + 1;
        assert(signed_bits(bits) == -(n as int));
        assert(-(n as int) / 2 == -((n as int + 1) / 2)) by (nonlinear_arith)
            requires
                n >= 1,
        ;
        RSQRT_MAGIC + (n + 1) / 2
    }
}

} // verus!
