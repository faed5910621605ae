//! The BN254 scalar field: elements, the operations taken from `halo2curves`, and the
//! congruence facts the constraint proofs rest on.
use vstd::prelude::*;

use crate::prime::{lemma_modulus_prime, lemma_prime_divides_product};

verus! {

/// The order of the BN254 scalar field.
pub open spec fn modulus() -> int {
    21888242871839275222246405745257275088548364400416034343698204186575808495617int
}

pub open spec fn two64() -> int {
    0x1_0000_0000_0000_0000int
}

/// The integer that four little-endian 64-bit limbs write.
pub open spec fn limbs_value(l: Seq<u64>) -> int {
    l[0] + two64() * (l[1] + two64() * (l[2] + two64() * l[3]))
}

/// The integer that eight little-endian bytes from `at` write.
pub open spec fn word_value(b: Seq<u8>, at: int) -> int {
    b[at] + 256 * (b[at + 1] + 256 * (b[at + 2] + 256 * (b[at + 3] + 256 * (b[at + 4] + 256 * (b[at
        + 5] + 256 * (b[at + 6] + 256 * b[at + 7]))))))
}

/// The integer that 32 little-endian bytes write.
pub open spec fn bytes_value(b: Seq<u8>) -> int {
    word_value(b, 0) + two64() * (word_value(b, 8) + two64() * (word_value(b, 16) + two64()
        * word_value(b, 24)))
}

/// An element of the BN254 scalar field, held as the limbs of its least representative.
#[derive(Clone, Copy, Debug, PartialEq, Eq)]
pub struct Fr {
    limbs: [u64; 4],
}

impl Fr {
    #[verifier::type_invariant]
    spec fn reduced(self) -> bool {
        limbs_value(self.limbs@) < modulus()
    }
}

impl View for Fr {
    type V = int;

    closed spec fn view(&self) -> int {
        limbs_value(self.limbs@) % modulus()
    }
}

/// An element's view is its least non-negative representative.
pub broadcast proof fn lemma_fr_range(x: Fr)
    ensures
        0 <= #[trigger] x@ < modulus(),
{
}

/// `Fr::from(u64)` of `halo2curves::bn256`: the element of an unsigned 64-bit integer,
/// written by `to_bytes` in canonical little-endian bytes.
#[verifier::external_body]
fn halo_from_u64(v: u64) -> (bytes: [u8; 32])
    ensures
        bytes_value(bytes@) == v as int,
{
    halo2curves::bn256::Fr::from(v).to_bytes()
}

/// `PrimeField::from_u128` of `halo2curves::bn256::Fr`: the element of an unsigned 128-bit
/// integer, written by `to_bytes` in canonical little-endian bytes.
#[verifier::external_body]
fn halo_from_u128(v: u128) -> (bytes: [u8; 32])
    ensures
        bytes_value(bytes@) == v as int,
{
    <halo2curves::bn256::Fr as halo2curves::ff::PrimeField>::from_u128(v).to_bytes()
}

/// Negation of `halo2curves::bn256::Fr`, on the element that `from_raw` makes of the limbs
/// (their value modulo the order), written by `to_bytes` in canonical little-endian bytes.
#[verifier::external_body]
fn halo_neg(x: [u64; 4]) -> (bytes: [u8; 32])
    ensures
        bytes_value(bytes@) == (-limbs_value(x@)) % modulus(),
{
    (-halo2curves::bn256::Fr::from_raw(x)).to_bytes()
}

/// Addition of `halo2curves::bn256::Fr`, on the elements that `from_raw` makes of the limbs,
/// written by `to_bytes` in canonical little-endian bytes.
#[verifier::external_body]
fn halo_add(x: [u64; 4], y: [u64; 4]) -> (bytes: [u8; 32])
    ensures
        bytes_value(bytes@) == (limbs_value(x@) + limbs_value(y@)) % modulus(),
{
    (halo2curves::bn256::Fr::from_raw(x) + halo2curves::bn256::Fr::from_raw(y)).to_bytes()
}

/// Multiplication of `halo2curves::bn256::Fr`, on the elements that `from_raw` makes of the
/// limbs, written by `to_bytes` in canonical little-endian bytes.
#[verifier::external_body]
fn halo_mul(x: [u64; 4], y: [u64; 4]) -> (bytes: [u8; 32])
    ensures
        bytes_value(bytes@) == (limbs_value(x@) * limbs_value(y@)) % modulus(),
{
    (halo2curves::bn256::Fr::from_raw(x) * halo2curves::bn256::Fr::from_raw(y)).to_bytes()
}

/// `Field::double` of `halo2curves::bn256::Fr`, on the element that `from_raw` makes of the
/// limbs, written by `to_bytes` in canonical little-endian bytes.
#[verifier::external_body]
fn halo_double(x: [u64; 4]) -> (bytes: [u8; 32])
    ensures
        bytes_value(bytes@) == (2 * limbs_value(x@)) % modulus(),
{
    halo2curves::ff::Field::double(&halo2curves::bn256::Fr::from_raw(x)).to_bytes()
}

/// The eight little-endian bytes from `at`, as one word.
pub(crate) fn word(b: &[u8; 32], at: usize) -> (r: u64)
    requires
        at <= 24,
    ensures
        r as int == word_value(b@, at as int),
{
    let w6: u64 = b[at + 6] as u64 + 256 * b[at + 7] as u64;
    let w4: u64 = b[at + 4] as u64 + 256 * (b[at + 5] as u64 + 256 * w6);
    let w2: u64 = b[at + 2] as u64 + 256 * (b[at + 3] as u64 + 256 * w4);
    b[at] as u64 + 256 * (b[at + 1] as u64 + 256 * w2)
}

impl Fr {
    /// The element whose least representative the bytes write.
    fn from_canonical(bytes: &[u8; 32]) -> (r: Fr)
        requires
            bytes_value(bytes@) < modulus(),
        ensures
            r@ == bytes_value(bytes@),
    {
        let limbs: [u64; 4] = [word(bytes, 0), word(bytes, 8), word(bytes, 16), word(bytes, 24)];
        assert(limbs_value(limbs@) == bytes_value(bytes@));
        Fr { limbs }
    }

    /// The element of the number that the limbs write, modulo the order.
    pub fn from_limbs(limbs: [u64; 4]) -> (r: Fr)
        ensures
            r@ == limbs_value(limbs@) % modulus(),
    {
        Fr::from_canonical(&halo_add(limbs, [0, 0, 0, 0]))
    }

    /// The limbs of the element's least representative, least significant first.
    pub fn limbs(&self) -> (r: [u64; 4])
        ensures
            limbs_value(r@) == self@,
    {
        proof {
            use_type_invariant(self);
        }
        self.limbs
    }

    /// The element that 32 little-endian bytes write, modulo the order.
    pub fn from_le_bytes(bytes: &[u8; 32]) -> (r: Fr)
        ensures
            r@ == bytes_value(bytes@) % modulus(),
    {
        let limbs: [u64; 4] = [word(bytes, 0), word(bytes, 8), word(bytes, 16), word(bytes, 24)];
        assert(limbs_value(limbs@) == bytes_value(bytes@));
        Fr::from_limbs(limbs)
    }

    pub fn from_u64(v: u64) -> (r: Fr)
        ensures
            r@ == v as int,
    {
        Fr::from_canonical(&halo_from_u64(v))
    }

    pub fn from_u128(v: u128) -> (r: Fr)
        ensures
            r@ == v as int,
    {
        Fr::from_canonical(&halo_from_u128(v))
    }

    pub fn zero() -> (r: Fr)
        ensures
            r@ == 0,
    {
        Fr::from_u64(0)
    }

    pub fn one() -> (r: Fr)
        ensures
            r@ == 1,
    {
        Fr::from_u64(1)
    }

    pub fn negated(&self) -> (r: Fr)
        ensures
            r@ == (-self@) % modulus(),
    {
        proof {
            let x = limbs_value(self.limbs@);
            lemma_neg_mod(x);
        }
        Fr::from_canonical(&halo_neg(self.limbs))
    }

    pub fn doubled(&self) -> (r: Fr)
        ensures
            r@ == (2 * self@) % modulus(),
    {
        proof {
            let x = limbs_value(self.limbs@);
            lemma_add_mod(x, x);
        }
        Fr::from_canonical(&halo_double(self.limbs))
    }

    pub fn plus(&self, other: &Fr) -> (r: Fr)
        ensures
            r@ == (self@ + other@) % modulus(),
    {
        proof {
            lemma_add_mod(limbs_value(self.limbs@), limbs_value(other.limbs@));
        }
        Fr::from_canonical(&halo_add(self.limbs, other.limbs))
    }

    pub fn times(&self, other: &Fr) -> (r: Fr)
        ensures
            r@ == (self@ * other@) % modulus(),
    {
        proof {
            lemma_mul_mod(limbs_value(self.limbs@), limbs_value(other.limbs@));
        }
        Fr::from_canonical(&halo_mul(self.limbs, other.limbs))
    }
}

proof fn lemma_neg_mod(x: int)
    ensures
        (-x) % modulus() == (-(x % modulus())) % modulus(),
        ((-x) % modulus()) % modulus() == (-x) % modulus(),
{
}

/// Residues of sums.
pub proof fn lemma_add_mod(x: int, y: int)
    ensures
        (x + y) % modulus() == (x % modulus() + y % modulus()) % modulus(),
        ((x + y) % modulus()) % modulus() == (x + y) % modulus(),
{
}

/// Residues of products.
pub proof fn lemma_mul_mod(x: int, y: int)
    ensures
        (x * y) % modulus() == ((x % modulus()) * (y % modulus())) % modulus(),
        ((x * y) % modulus()) % modulus() == (x * y) % modulus(),
{
    vstd::arithmetic::div_mod::lemma_mul_mod_noop(x, y, modulus());
}

/// The least residue in absolute value: the signed integer that a field element stands for.
pub open spec fn centered(v: int) -> int {
    if 2 * v < modulus() {
        v
    } else {
        v - modulus()
    }
}

/// A small integer is the signed integer of its field element, and the only small one.
pub proof fn lemma_centered(x: int, v: int)
    requires
        0 <= v < modulus(),
        -0x1_0000_0000_0000_0000_0000_0000_0000_0000int <= x
            <= 0x1_0000_0000_0000_0000_0000_0000_0000_0000int,
        (v - x) % modulus() == 0,
    ensures
        centered(v) == x,
        v == x % modulus(),
{
}

/// The signed integer of the field element of a small integer is that integer.
pub proof fn lemma_centered_of(x: int)
    requires
        -0x1_0000_0000_0000_0000_0000_0000_0000_0000int <= x
            <= 0x1_0000_0000_0000_0000_0000_0000_0000_0000int,
    ensures
        centered(x % modulus()) == x,
{
}

/// An element and its signed integer are congruent.
pub proof fn lemma_centered_congruent(v: int)
    requires
        0 <= v < modulus(),
    ensures
        (v - centered(v)) % modulus() == 0,
        -modulus() < centered(v) < modulus(),
{
}

/// A field element is boolean where the boolean gate vanishes.
pub proof fn lemma_boolean(b: int)
    requires
        0 <= b < modulus(),
        (b * (1 - b)) % modulus() == 0,
    ensures
        b == 0 || b == 1,
{
    lemma_modulus_prime();
    lemma_prime_divides_product(b, 1 - b, modulus());
}

/// Congruent factors have congruent products.
pub proof fn lemma_congruent_product(a: int, b: int, x: int, y: int)
    requires
        (a - x) % modulus() == 0,
        (b - y) % modulus() == 0,
    ensures
        (a * b - x * y) % modulus() == 0,
{
    let p = modulus();
    vstd::arithmetic::div_mod::lemma_fundamental_div_mod(a - x, p);
    vstd::arithmetic::div_mod::lemma_fundamental_div_mod(b - y, p);
    let m = (a - x) / p;
    let n = (b - y) / p;
    assert(a * b - x * y == (m * b + x * n) * p) by (nonlinear_arith)
        requires
            a - x == p * m,
            b - y == p * n,
    ;
    vstd::arithmetic::div_mod::lemma_mod_multiples_basic(m * b + x * n, p);
}

} // verus!
