//! Colours in the CIE L\*a\*b\* space and the perceptual distance between them.
//!
//! The coordinates are single-precision numbers that only the colorimetric
//! crates read. This module carries a colour through as an opaque value and
//! gives a name to each colorimetric result, so that the rest of the library
//! can speak of it.

use vstd::prelude::*;

use delta_e::DE2000;
use lab::Lab;

verus! {

/// `lab::Lab`: a colour as three L\*a\*b\* coordinates, opaque to the verifier.
#[verifier::external_type_specification]
#[verifier::external_body]
pub struct ExLab(Lab);

/// The colour that `lab::Lab::from_rgb` computes from an RGB triple.
pub uninterp spec fn lab_of_rgb(rgb: [u8; 3]) -> Lab;

/// The RGB triple that `lab::Lab::to_rgb` computes from a colour.
pub uninterp spec fn rgb_of_lab(color: Lab) -> [u8; 3];

/// The bit pattern of the CIEDE2000 difference that `delta_e::DE2000::new`
/// computes between two colours, in that order.
pub uninterp spec fn ciede2000(x: Lab, y: Lab) -> u32;

/// `lab::Lab::from_rgb` goes from sRGB through XYZ to L\*a\*b\* and reads
/// nothing but the triple it is given, so its result is `lab_of_rgb` of it.
pub assume_specification[ Lab::from_rgb ](rgb: &[u8; 3]) -> (color: Lab)
    ensures
        color == lab_of_rgb(*rgb),
;

/// `lab::Lab::to_rgb` goes back through XYZ, rounds each channel and clamps
/// it to a byte. It reads nothing but the colour, so its result is
/// `rgb_of_lab` of it.
pub assume_specification[ Lab::to_rgb ](color: &Lab) -> (rgb: [u8; 3])
    ensures
        rgb == rgb_of_lab(*color),
;

/// Calls `delta_e::DE2000::new` and hands back the bit pattern of the
/// difference. The difference is computed from the six coordinates alone, so
/// it is `ciede2000` of the two colours.
#[verifier::external_body]
pub(crate) fn delta_e(x: Lab, y: Lab) -> (bits: u32)
    ensures
        bits == ciede2000(x, y),
{
    DE2000::new(x, y).to_bits()
}

/// Bit pattern of the single-precision number 10: two colours closer than
/// this are taken for one.
pub const MIN_DISTANCE_FOR_UNIQUENESS: u32 = 0x4120_0000;

/// Bit pattern of positive infinity; every pattern above it, the sign bit
/// left aside, is a NaN.
pub const INFINITY_BITS: u32 = 0x7f80_0000;

/// Lowest bit pattern with the sign bit set.
pub const SIGN_BIT: u32 = 0x8000_0000;

/// Whether the single-precision number with bit pattern `bits` is a NaN.
pub open spec fn is_nan(bits: u32) -> bool {
    INFINITY_BITS < bits < SIGN_BIT || bits > SIGN_BIT + INFINITY_BITS
}

/// Whether the single-precision number with bit pattern `bits` is less than
/// the uniqueness threshold. Of the numbers that are no NaN, those are the
/// ones with the sign bit set and the non-negative ones whose pattern, read
/// as an integer, is below that of the threshold.
pub open spec fn below_threshold(bits: u32) -> bool {
    !is_nan(bits) && (bits >= SIGN_BIT || bits < MIN_DISTANCE_FOR_UNIQUENESS)
}

/// Whether `x` is perceptually too close to `y` to be a colour of its own.
pub open spec fn similar(x: Lab, y: Lab) -> bool {
    below_threshold(ciede2000(x, y))
}

/// Compares a distance, given by its bit pattern, with the uniqueness
/// threshold.
pub fn is_below_threshold(bits: u32) -> (below: bool)
    ensures
        below == below_threshold(bits),
{
    if bits < MIN_DISTANCE_FOR_UNIQUENESS {
        true
    } else {
        SIGN_BIT <= bits && bits <= 0xff80_0000
    }
}

/// Whether `x` is closer to `y` than the uniqueness threshold.
pub fn is_similar(x: Lab, y: Lab) -> (close: bool)
    ensures
        close == similar(x, y),
{
    is_below_threshold(delta_e(x, y))
}

} // verus!
