//! Machine integers as field elements.
use vstd::prelude::*;

use crate::field::modulus;

pub use crate::field::Fr;

verus! {

/// Shift that maps the signed 64-bit integers onto the unsigned ones, so that a signed value
/// can be range-checked as an unsigned one.
pub const SIGNED_SHIFT: i128 = 0x8000_0000_0000_0000;

/// The signed integer that a shifted value stands for.
pub open spec fn unshifted(v: int) -> int {
    v - SIGNED_SHIFT
}

/// A value is a signed 64-bit integer, shifted.
pub open spec fn is_shifted(v: int) -> bool {
    0 <= v < 0x1_0000_0000_0000_0000int
}

pub fn i64_to_fr(v: i64) -> (r: Fr)
    ensures
        r@ == v as int % modulus(),
{
    if v >= 0 {
        Fr::from_u64(v as u64)
    } else {
        Fr::from_u64((-(v as i128)) as u64).negated()
    }
}

pub fn i128_to_fr(v: i128) -> (r: Fr)
    ensures
        r@ == v as int % modulus(),
{
    if v >= 0 {
        Fr::from_u128(v as u128)
    } else {
        let size: u128 = (-(v + 1)) as u128 + 1;
        Fr::from_u128(size).negated()
    }
}

/// A signed integer shifted by [`SIGNED_SHIFT`], as a field element and as an integer.
pub fn shifted_i64_witness(v: i64) -> (r: (Fr, i128))
    ensures
        r.0@ == v + SIGNED_SHIFT,
        r.1 == v + SIGNED_SHIFT,
{
    let shifted: i128 = (v as i128) + SIGNED_SHIFT;
    (i128_to_fr(shifted), shifted)
}

} // verus!
