//! Angles as whole numbers of micro-arc-seconds, and the integer scaling that
//! every channel conversion goes through.

use vstd::prelude::*;

verus! {

/// Micro-arc-seconds in one degree.
pub const MICROARCSECONDS_PER_DEGREE: u64 = 3_600_000_000;

/// The exact quotient `input * output_range / input_range`, rounded towards zero.
pub open spec fn scaled(input: int, input_range: int, output_range: int) -> int {
    input * output_range / input_range
}

/// An angle given in whole degrees, in micro-arc-seconds.
pub fn deg_to_microarcseconds(deg: u32) -> (r: u64)
    ensures
        r == deg * MICROARCSECONDS_PER_DEGREE,
{
    deg as u64 * 60 * 60 * 1000 * 1000
}

/// Maps `input`, a position within `input_range`, onto `output_range`.
///
/// The product is formed in 128 bits, so it never wraps; the quotient is cut
/// to its low 64 bits.
pub fn scale_deg(input: u64, input_range: u64, output_range: u64) -> (r: u64)
    requires
        input_range > 0,
    ensures
        r == scaled(input as int, input_range as int, output_range as int) % 0x1_0000_0000_0000_0000,
{
    assert(input * output_range <= 0xffff_ffff_ffff_ffff * 0xffff_ffff_ffff_ffff) by (nonlinear_arith)
        requires
            0 <= input <= 0xffff_ffff_ffff_ffff,
            0 <= output_range <= 0xffff_ffff_ffff_ffff,
    ;
    let wide: u128 = input as u128 * output_range as u128 / input_range as u128;
    let low: u64 = #[verifier::truncate] (wide as u64);
    assert(low == wide % 0x1_0000_0000_0000_0000) by (bit_vector)
        requires
            low == wide as u64,
    ;
    low
}

} // verus!
