//! Fixed-point numbers with 18 decimal places, and their requantization.
use vstd::prelude::*;
use vstd::string::*;

use crate::text::{signed_decimal, signed_text};

verus! {

pub const SCALE_18: i128 = 1_000_000_000_000_000_000;

#[derive(Debug, Clone, PartialEq, Eq)]
pub struct FixedPointError(pub String);

impl FixedPointError {
    /// The text of the error.
    pub fn message(&self) -> (r: String)
        ensures
            r@ == "fixed point error: "@ + self.0@,
    {
        let mut r = String::from_str("fixed point error: ");
        r.append(self.0.as_str());
        r
    }
}

/// A fixed-point number, held as its multiple of `10^-18`.
#[derive(Clone, Copy, Debug, PartialEq, Eq, Structural)]
pub struct I18(i64);

impl View for I18 {
    type V = int;

    closed spec fn view(&self) -> int {
        self.0 as int
    }
}

pub open spec fn is_i64(v: int) -> bool {
    i64::MIN <= v <= i64::MAX
}

/// Every number's raw value is a 64-bit integer.
pub broadcast proof fn lemma_i18_range(x: I18)
    ensures
        is_i64(#[trigger] x@),
{
}

/// The number of a raw value.
pub closed spec fn i18(raw: int) -> I18 {
    I18(raw as i64)
}

pub broadcast proof fn lemma_i18(raw: int)
    requires
        is_i64(raw),
    ensures
        (#[trigger] i18(raw))@ == raw,
{
}

/// Two numbers with the same raw value are the same.
pub proof fn lemma_i18_ext(x: I18, y: I18)
    requires
        x@ == y@,
    ensures
        x == y,
{
}

impl I18 {
    pub fn from_raw(raw: i64) -> (r: Self)
        ensures
            r@ == raw,
    {
        I18(raw)
    }

    pub fn raw(&self) -> (r: i64)
        ensures
            r == self@,
    {
        self.0
    }
}

/// The quotient of a raw value by the scale, rounded down.
pub open spec fn rescaled(v: int) -> int {
    v / (SCALE_18 as int)
}

pub open spec fn rescale_remainder(v: int) -> int {
    v % (SCALE_18 as int)
}

pub open spec fn requantize_raw_text(v: int) -> Seq<char> {
    "raw value "@ + signed_decimal(v) + " requantizes to a quotient that overflows I18 range"@
}

pub open spec fn requantize_mul_text(a: int, b: int) -> Seq<char> {
    "product of raw values "@ + signed_decimal(a) + " and "@ + signed_decimal(b)
        + " overflows I18 range"@
}

/// The quotient and the remainder of Euclidean division.
pub(crate) fn divide(v: i128, d: i128) -> (r: (i128, i128))
    requires
        0 < d,
    ensures
        r.0 == v as int / d as int,
        r.1 == v as int % d as int,
        0 <= r.1 < d,
{
    if v >= 0 {
        (v / d, v % d)
    } else {
        let w: i128 = -(v + 1);
        let q: i128 = w / d;
        let m: i128 = w % d;
        proof {
            let (vi, di, qi, mi) = (v as int, d as int, q as int, m as int);
            assert(w == qi * di + mi) by {
                vstd::arithmetic::div_mod::lemma_fundamental_div_mod(w as int, di);
                vstd::arithmetic::mul::lemma_mul_is_commutative(qi, di);
            }
            assert(vi == (-1 - qi) * di + (di - 1 - mi)) by (nonlinear_arith)
                requires
                    vi == -(qi * di + mi) - 1,
            ;
            vstd::arithmetic::div_mod::lemma_fundamental_div_mod_converse(
                vi,
                di,
                -1 - qi,
                di - 1 - mi,
            );
        }
        (-1 - q, d - 1 - m)
    }
}

/// Requantizes a raw value by the scale: the quotient, rounded down, and the remainder in
/// `[0, SCALE_18)`. A quotient that is no 64-bit integer is an error.
pub fn requantize_raw(raw_value: i128) -> (r: Result<(I18, i128), FixedPointError>)
    ensures
        match r {
            Ok((q, m)) => is_i64(rescaled(raw_value as int)) && q@ == rescaled(raw_value as int)
                && m == rescale_remainder(raw_value as int),
            Err(e) => !is_i64(rescaled(raw_value as int)) && e.0@ == requantize_raw_text(
                raw_value as int,
            ),
        },
{
    let (quotient, remainder) = divide(raw_value, SCALE_18);
    if quotient < i64::MIN as i128 || quotient > i64::MAX as i128 {
        let mut text = String::from_str("raw value ");
        text.append(signed_text(raw_value).as_str());
        text.append(" requantizes to a quotient that overflows I18 range");
        return Err(FixedPointError(text));
    }
    Ok((I18(quotient as i64), remainder))
}

/// Multiplies in fixed point: the product's quotient by the scale, rounded down, and the
/// remainder in `[0, SCALE_18)`. A quotient that is no 64-bit integer is an error.
pub fn requantize_mul(a: I18, b: I18) -> (r: Result<(I18, i128), FixedPointError>)
    ensures
        match r {
            Ok((q, m)) => is_i64(rescaled(a@ * b@)) && q@ == rescaled(a@ * b@) && m
                == rescale_remainder(a@ * b@),
            Err(e) => !is_i64(rescaled(a@ * b@)) && e.0@ == requantize_mul_text(a@, b@),
        },
{
    proof {
        lemma_product_range(a@, b@);
    }
    let raw_product: i128 = (a.raw() as i128) * (b.raw() as i128);
    match requantize_raw(raw_product) {
        Ok(r) => Ok(r),
        Err(_) => {
            let mut text = String::from_str("product of raw values ");
            text.append(signed_text(a.raw() as i128).as_str());
            text.append(" and ");
            text.append(signed_text(b.raw() as i128).as_str());
            text.append(" overflows I18 range");
            Err(FixedPointError(text))
        },
    }
}

/// A product of two 64-bit integers has at most 126 bits and a sign.
pub proof fn lemma_product_range(a: int, b: int)
    requires
        is_i64(a),
        is_i64(b),
    ensures
        -0x4000_0000_0000_0000_0000_0000_0000_0000int <= a * b
            <= 0x4000_0000_0000_0000_0000_0000_0000_0000int,
{
    let m = 0x8000_0000_0000_0000int;
    assert(-(m * m) <= a * b <= m * m) by (nonlinear_arith)
        requires
            -m <= a <= m,
            -m <= b <= m,
            m == 0x8000_0000_0000_0000int,
    ;
}

/// Requantization splits every value into a multiple of the scale and a remainder below it,
/// and no other such split exists.
pub proof fn lemma_rescale_unique(v: int, q: int, r: int)
    requires
        v == q * (SCALE_18 as int) + r,
        0 <= r < SCALE_18,
    ensures
        q == rescaled(v),
        r == rescale_remainder(v),
{
    vstd::arithmetic::div_mod::lemma_fundamental_div_mod_converse(v, SCALE_18 as int, q, r);
}

/// Requantization rounds down: the quotient is the largest integer whose multiple by ten to the
/// eighteenth is not above the value, and the remainder is what is left.
pub proof fn lemma_rescale_rounds_down(v: int)
    ensures
        rescaled(v) * 1_000_000_000_000_000_000 <= v < (rescaled(v) + 1)
            * 1_000_000_000_000_000_000,
        rescale_remainder(v) == v - rescaled(v) * 1_000_000_000_000_000_000,
{
    vstd::arithmetic::div_mod::lemma_fundamental_div_mod(v, SCALE_18 as int);
}

/// One is neutral in fixed-point multiplication, zero absorbs, the order of the factors does not
/// matter, and a larger raw value is not requantized to a smaller one.
pub proof fn lemma_rescale_products(x: int, y: int)
    ensures
        rescaled(x * 1_000_000_000_000_000_000) == x,
        rescaled(x * 0) == 0,
        rescaled(x * y) == rescaled(y * x),
        x <= y ==> rescaled(x) <= rescaled(y),
{
    vstd::arithmetic::mul::lemma_mul_is_commutative(x, y);
    lemma_rescale_unique(x * 1_000_000_000_000_000_000, x, 0);
    lemma_rescale_rounds_down(x);
    lemma_rescale_rounds_down(y);
}

/// The numbers have 64 bits and a sign in two's complement.
pub proof fn lemma_i64_bounds(v: int)
    ensures
        is_i64(v) <==> -0x8000_0000_0000_0000 <= v < 0x8000_0000_0000_0000,
{
}

} // verus!
