use vstd::prelude::*;

verus! {

/// Bit pattern of `0.0f32`.
pub const POSITIVE_ZERO: u32 = 0;

/// Bit pattern of `-0.0f32`.
pub const NEGATIVE_ZERO: u32 = 0x8000_0000;

/// Bit pattern of `1.0f32`.
pub const ONE: u32 = 0x3f80_0000;

/// Bit pattern of `f32::INFINITY`; magnitudes above it are NaNs.
pub const INFINITY: u32 = 0x7f80_0000;

/// The binary32 value with bit pattern `b` is a NaN.
pub open spec fn is_nan(b: u32) -> bool {
    b % 0x8000_0000 > INFINITY
}

/// A number that orders binary32 values as the reals they denote: the magnitude bits,
/// negated when the sign bit is set, so that both zeros map to 0.
pub open spec fn order_key(b: u32) -> int {
    if b >= 0x8000_0000 {
        -(b - 0x8000_0000)
    } else {
        b as int
    }
}

/// `a > b` on the binary32 values with these bit patterns: false when either is a NaN.
pub open spec fn float_gt(a: u32, b: u32) -> bool {
    !is_nan(a) && !is_nan(b) && order_key(a) > order_key(b)
}

/// `a == 0.0` on the binary32 value with this bit pattern.
pub open spec fn float_is_zero(a: u32) -> bool {
    a == POSITIVE_ZERO || a == NEGATIVE_ZERO
}

pub fn is_nan_bits(b: u32) -> (r: bool)
    ensures
        r == is_nan(b),
{
    b % 0x8000_0000 > INFINITY
}

/// `a > b` on binary32 values given by their bit patterns.
pub fn gt_bits(a: u32, b: u32) -> (r: bool)
    ensures
        r == float_gt(a, b),
{
    if is_nan_bits(a) || is_nan_bits(b) {
        return false;
    }
    let a_neg = a >= 0x8000_0000;
    let b_neg = b >= 0x8000_0000;
    let a_mag = a % 0x8000_0000;
    let b_mag = b % 0x8000_0000;
    if a_neg && b_neg {
        a_mag < b_mag
    } else if a_neg {
        false
    } else if b_neg {
        a_mag > 0 || b_mag > 0
    } else {
        a_mag > b_mag
    }
}

} // verus!
