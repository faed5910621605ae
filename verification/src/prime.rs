//! The order of the field is prime.
//!
//! A divisor `r > 1` of `n` is at least as large as the order of any unit modulo `r`. An
//! element whose order modulo every divisor of `n` exceeds the square root of `n` therefore
//! certifies that `n` is prime. The certificates below give such an element for the order of
//! the field and for the large primes that its certificate uses.
use vstd::arithmetic::div_mod::*;
use vstd::arithmetic::mul::*;
use vstd::arithmetic::power::*;
use vstd::prelude::*;
use vstd::set_lib::*;

use crate::field::modulus;

verus! {

pub open spec fn divides(d: int, n: int) -> bool {
    n % d == 0
}

pub open spec fn is_prime(n: int) -> bool {
    n > 1 && forall|d: int| 1 < d < n ==> !#[trigger] divides(d, n)
}

/// A common divisor of two numbers that is an integer combination of them.
proof fn bezout(a: int, b: int) -> (t: (int, int, int))
    requires
        0 <= a,
        0 < b,
    ensures
        t.0 * a + t.1 * b == t.2,
        0 < t.2,
        a % t.2 == 0,
        b % t.2 == 0,
    decreases a,
{
    if a == 0 {
        assert(0 * a + 1 * b == b);
        lemma_mod_self_0(b);
        (0, 1, b)
    } else {
        lemma_fundamental_div_mod(b, a);
        lemma_mod_bound(b, a);
        let (x, y, g) = bezout(b % a, a);
        let k = b / a;
        assert((y - x * k) * a + x * b == g) by (nonlinear_arith)
            requires
                x * (b % a) + y * a == g,
                b == a * k + b % a,
        ;
        assert(b % g == 0) by {
            lemma_fundamental_div_mod(a, g);
            lemma_fundamental_div_mod(b % a, g);
            let a1 = a / g;
            let b1 = (b % a) / g;
            assert(b == g * (a1 * k + b1)) by (nonlinear_arith)
                requires
                    b == a * k + b % a,
                    a == g * a1,
                    b % a == g * b1,
            ;
            lemma_mod_multiples_basic(a1 * k + b1, g);
            lemma_mul_is_commutative(g, a1 * k + b1);
        }
        (y - x * k, x, g)
    }
}

/// A number that a prime does not divide has an inverse modulo the prime.
proof fn inverse(a: int, q: int) -> (u: int)
    requires
        is_prime(q),
        0 < a,
        !divides(q, a),
    ensures
        0 <= u,
        (a * u) % q == 1,
{
    let (x, y, g) = bezout(a, q);
    assert(g == 1) by {
        if g != 1 {
            if g < q {
                assert(divides(g, q));
            } else {
                assert(g == q) by {
                    lemma_fundamental_div_mod(q, g);
                    if g > q {
                        lemma_small_mod(q as nat, g as nat);
                    }
                }
                assert(divides(q, a));
            }
        }
    }
    let u = x % q;
    lemma_mod_bound(x, q);
    assert((a * u) % q == 1) by {
        lemma_mul_mod_noop_right(a, x, q);
        assert(a * x == 1 - y * q) by {
            lemma_mul_is_commutative(a, x);
        }
        assert((1 - y * q) % q == 1) by {
            lemma_mod_multiples_vanish(-y, 1, q);
            assert(q * (-y) + 1 == 1 - y * q) by (nonlinear_arith);
            lemma_small_mod(1, q as nat);
        }
    }
    u
}

/// A prime that divides a product divides one of its factors.
pub proof fn lemma_prime_divides_product(a: int, b: int, q: int)
    requires
        is_prime(q),
        (a * b) % q == 0,
    ensures
        a % q == 0 || b % q == 0,
{
    if a % q != 0 {
        let s = a % q;
        lemma_mod_bound(a, q);
        lemma_small_mod(s as nat, q as nat);
        let u = inverse(s, q);
        lemma_mul_mod_noop_left(a, b, q);
        assert((s * b) % q == 0);
        lemma_mul_mod_noop_left(s * b, u, q);
        assert(0 * u == 0);
        assert(((s * b) * u) % q == 0);
        lemma_mul_mod_noop_left(s * u, b, q);
        assert((s * b) * u == (s * u) * b) by (nonlinear_arith);
        assert((1 * b) % q == 0);
    }
}

/// Powers of an element are distinct below its order.
proof fn lemma_powers_distinct(c: int, f: nat, r: int, i: nat, j: nat)
    requires
        r > 1,
        pow(c, f) % r == 1,
        forall|k: nat| 0 < k < f ==> #[trigger] pow(c, k) % r != 1,
        i < j < f,
    ensures
        pow(c, i) % r != pow(c, j) % r,
{
    if pow(c, i) % r == pow(c, j) % r {
        let k = (f - i) as nat;
        let d = (j - i) as nat;
        lemma_mul_mod_noop_left(pow(c, i), pow(c, k), r);
        lemma_mul_mod_noop_left(pow(c, j), pow(c, k), r);
        lemma_pow_adds(c, i, k);
        lemma_pow_adds(c, j, k);
        lemma_pow_adds(c, d, f);
        assert(j + k == d + f);
        lemma_mul_mod_noop_right(pow(c, d), pow(c, f), r);
        assert((pow(c, d) * 1) % r == 1);
        assert(pow(c, d) % r == 1);
    }
}

/// A modulus is no smaller than the order of an element.
proof fn lemma_order_bound(c: int, f: nat, r: int)
    requires
        r > 1,
        pow(c, f) % r == 1,
        forall|k: nat| 0 < k < f ==> #[trigger] pow(c, k) % r != 1,
    ensures
        f <= r,
{
    let exponents = set_int_range(0, f as int);
    let residues = set_int_range(0, r);
    let residue = |i: int| pow(c, i as nat) % r;
    lemma_int_range(0, f as int);
    lemma_int_range(0, r);
    let image = exponents.map(residue);
    assert forall|i: int, j: int|
        exponents.contains(i) && exponents.contains(j) && #[trigger] residue(i)
            == #[trigger] residue(j) implies i == j by {
        if i < j {
            lemma_powers_distinct(c, f, r, i as nat, j as nat);
        }
        if j < i {
            lemma_powers_distinct(c, f, r, j as nat, i as nat);
        }
    }
    assert(image.subset_of(residues)) by {
        assert forall|v: int| image.contains(v) implies residues.contains(v) by {
            let i = choose|i: int| exponents.contains(i) && v == residue(i);
            lemma_mod_bound(pow(c, i as nat), r);
        }
    }
    lemma_map_size(exponents, image, residue);
    lemma_len_subset(image, residues);
}

/// A number all of whose divisors are large is prime.
proof fn lemma_no_small_divisor(n: int, f: int)
    requires
        n > 1,
        0 < f,
        n < f * f,
        forall|d: int| d > 1 && #[trigger] divides(d, n) ==> f <= d,
    ensures
        is_prime(n),
{
    assert forall|d: int| 1 < d < n implies !#[trigger] divides(d, n) by {
        if divides(d, n) {
            lemma_fundamental_div_mod(n, d);
            let e = n / d;
            assert(e > 1) by (nonlinear_arith)
                requires
                    n == d * e,
                    1 < d < n,
            ;
            lemma_mod_multiples_basic(d, e);
            assert(divides(e, n));
            assert(n >= f * f) by (nonlinear_arith)
                requires
                    n == d * e,
                    f <= d,
                    f <= e,
                    0 < f,
            ;
        }
    }
}

/// A power that a modulus keeps away from one stays away from one modulo a divisor.
proof fn lemma_unit_difference(x: int, u: int, n: int, d: int)
    requires
        n > 1,
        d > 1,
        divides(d, n),
        ((x - 1) * u) % n == 1,
    ensures
        x % d != 1,
{
    if x % d == 1 {
        lemma_small_mod(1, d as nat);
        lemma_mod_equivalence(x, 1, d);
        assert((x - 1) % d == 0);
        lemma_mul_mod_noop_left(x - 1, u, d);
        assert(0 * u == 0);
        assert(((x - 1) * u) % d == 0);
        lemma_one_below(((x - 1) * u), n, d);
    }
}

/// What is one modulo a number is one modulo each of its divisors.
proof fn lemma_one_below(x: int, n: int, d: int)
    requires
        n > 1,
        d > 1,
        divides(d, n),
        x % n == 1,
    ensures
        x % d == 1,
{
    lemma_fundamental_div_mod(x, n);
    lemma_fundamental_div_mod(n, d);
    let e = n / d;
    assert(x == d * (e * (x / n)) + 1) by (nonlinear_arith)
        requires
            x == n * (x / n) + 1,
            n == d * e,
    ;
    lemma_mod_multiples_vanish(e * (x / n), 1, d);
    lemma_small_mod(1, d as nat);
}

/// An exponent that a prime factor of the order does not divide moves the element.
proof fn lemma_exponent_divisible(c: int, q: int, h: nat, r: int, j: nat)
    requires
        is_prime(q),
        r > 1,
        0 < j,
        pow(c, (q * h) as nat) % r == 1,
        pow(c, h) % r != 1,
        pow(c, j) % r == 1,
    ensures
        j as int % q == 0,
{
    if !divides(q, j as int) {
        let u = inverse(j as int, q);
        let m = j as int * u;
        lemma_fundamental_div_mod(m, q);
        let k = m / q;
        assert(k >= 0) by (nonlinear_arith)
            requires
                m == q * k + 1,
                q > 1,
                m >= 0,
        ;
        // c^(h * m) is one as a power of c^j, and c^h as c^h times a power of c^(q * h)
        lemma_one_power(pow(c, j), (u * h) as nat, r);
        lemma_pow_multiplies(c, j, (u * h) as nat);
        lemma_one_power(pow(c, (q * h) as nat), k as nat, r);
        lemma_pow_multiplies(c, (q * h) as nat, k as nat);
        lemma_pow_adds(c, h, (q * h * k) as nat);
        assert(j * (u * h) == h + q * h * k) by (nonlinear_arith)
            requires
                m == j * u,
                m == q * k + 1,
        ;
        lemma_mul_mod_noop_right(pow(c, h), pow(c, (q * h * k) as nat), r);
        assert((pow(c, h) * 1) % r == 1);
    }
}

proof fn lemma_one_power(x: int, e: nat, r: int)
    requires
        r > 1,
        x % r == 1,
    ensures
        pow(x, e) % r == 1,
    decreases e,
{
    if e == 0 {
        lemma_pow0(x);
        lemma_small_mod(1, r as nat);
    } else {
        lemma_one_power(x, (e - 1) as nat, r);
        lemma_pow_adds(x, 1, (e - 1) as nat);
        lemma_pow1(x);
        lemma_mul_mod_noop(x, pow(x, (e - 1) as nat), r);
        lemma_small_mod(1, r as nat);
    }
}

/// An element of prime order above the square root certifies a prime.
proof fn lemma_certificate(n: int, c: int, q: int, u: int)
    requires
        n > 1,
        is_prime(q),
        n < q * q,
        pow(c, q as nat) % n == 1,
        ((c - 1) * u) % n == 1,
    ensures
        is_prime(n),
{
    assert forall|d: int| d > 1 && #[trigger] divides(d, n) implies q <= d by {
        lemma_one_below(pow(c, q as nat), n, d);
        lemma_unit_difference(c, u, n, d);
        lemma_pow1(c);
        assert forall|k: nat| 0 < k < q as nat implies #[trigger] pow(c, k) % d != 1 by {
            if pow(c, k) % d == 1 {
                assert(q * 1 == q);
                lemma_exponent_divisible(c, q, 1, d, k);
                lemma_small_mod(k, q as nat);
            }
        }
        lemma_order_bound(c, q as nat, d);
    }
    lemma_no_small_divisor(n, q);
}

/// An element whose order is a product of two primes above the square root certifies a prime.
proof fn lemma_certificate_pair(n: int, c: int, qa: int, qb: int, ua: int, ub: int)
    requires
        n > 1,
        is_prime(qa),
        is_prime(qb),
        qa < qb,
        n < (qa * qb) * (qa * qb),
        pow(c, (qa * qb) as nat) % n == 1,
        ((pow(c, qb as nat) - 1) * ua) % n == 1,
        ((pow(c, qa as nat) - 1) * ub) % n == 1,
    ensures
        is_prime(n),
{
    let f = qa * qb;
    assert(f > 0) by (nonlinear_arith)
        requires
            f == qa * qb,
            qa > 1,
            qb > 1,
    ;
    lemma_mul_is_commutative(qa, qb);
    assert forall|d: int| d > 1 && #[trigger] divides(d, n) implies f <= d by {
        lemma_one_below(pow(c, f as nat), n, d);
        lemma_unit_difference(pow(c, qb as nat), ua, n, d);
        lemma_unit_difference(pow(c, qa as nat), ub, n, d);
        assert forall|k: nat| 0 < k < f as nat implies #[trigger] pow(c, k) % d != 1 by {
            if pow(c, k) % d == 1 {
                lemma_exponent_divisible(c, qa, qb as nat, d, k);
                lemma_exponent_divisible(c, qb, qa as nat, d, k);
                lemma_fundamental_div_mod(k as int, qb);
                let m = k as int / qb;
                lemma_prime_divides_product(qb, m, qa);
                assert(qb % qa != 0) by {
                    assert(!divides(qa, qb));
                }
                lemma_fundamental_div_mod(m, qa);
                let w = m / qa;
                assert(k == f * w) by (nonlinear_arith)
                    requires
                        k == qb * m,
                        m == qa * w,
                        f == qa * qb,
                ;
                assert(false) by (nonlinear_arith)
                    requires
                        k == f * w,
                        0 < k < f,
                ;
            }
        }
        lemma_order_bound(c, f as nat, d);
    }
    lemma_no_small_divisor(n, f);
}

/// Squaring doubles an exponent.
proof fn square(c: int, e: nat, n: int, v: int, w: int)
    requires
        n > 1,
        pow(c, e) % n == v,
        (v * v) % n == w,
    ensures
        pow(c, 2 * e) % n == w,
{
    lemma_pow_adds(c, e, e);
    lemma_mul_mod_noop(pow(c, e), pow(c, e), n);
}

/// Squaring and multiplying once more doubles an exponent and adds one.
proof fn square_times(c: int, e: nat, n: int, v: int, w: int)
    requires
        n > 1,
        pow(c, e) % n == v,
        (v * v * c) % n == w,
    ensures
        pow(c, 2 * e + 1) % n == w,
{
    lemma_pow_adds(c, e, e);
    lemma_pow_adds(c, 2 * e, 1);
    lemma_pow1(c);
    lemma_mul_mod_noop(pow(c, e), pow(c, e), n);
    lemma_mul_mod_noop_left(pow(c, 2 * e), c, n);
    lemma_mul_mod_noop_left(v * v, c, n);
}

/// No number from `d` up to `hi` divides `n`.
spec fn trial(n: int, d: int, hi: int) -> bool
    decreases hi - d,
{
    d >= hi || (n % d != 0 && trial(n, d + 1, hi))
}

proof fn lemma_trial(n: int, d: int, hi: int, e: int)
    requires
        d <= e < hi,
        trial(n, d, hi),
    ensures
        n % e != 0,
    decreases e - d,
{
    if d < e {
        lemma_trial(n, d + 1, hi, e);
    }
}

/// A number without a divisor up to its square root is prime.
proof fn lemma_trial_prime(n: int, hi: int)
    requires
        n > 1,
        n < hi * hi,
        hi > 0,
        trial(n, 2, hi),
    ensures
        is_prime(n),
{
    assert forall|d: int| d > 1 && #[trigger] divides(d, n) implies hi <= d by {
        if d < hi {
            lemma_trial(n, 2, hi, d);
        }
    }
    lemma_no_small_divisor(n, hi);
}

/// Powers of a power, and the differences that certify an order of two primes.
proof fn lemma_pair_power(
    c: int,
    qa: int,
    qb: int,
    n: int,
    va: int,
    vb: int,
    ua: int,
    ub: int,
)
    requires
        n > 1,
        qa > 0,
        qb > 0,
        pow(c, qa as nat) % n == va,
        pow(c, qb as nat) % n == vb,
        pow(vb, qa as nat) % n == 1,
        ((vb - 1) * ua) % n == 1,
        ((va - 1) * ub) % n == 1,
    ensures
        pow(c, (qa * qb) as nat) % n == 1,
        ((pow(c, qb as nat) - 1) * ua) % n == 1,
        ((pow(c, qa as nat) - 1) * ub) % n == 1,
{
    lemma_pow_multiplies(c, qb as nat, qa as nat);
    lemma_pow_mod_noop(pow(c, qb as nat), qa as nat, n);
    lemma_mul_is_commutative(qa, qb);
    lemma_sub_mod_noop_left(pow(c, qb as nat), 1, n);
    lemma_sub_mod_noop_left(pow(c, qa as nat), 1, n);
    lemma_mul_mod_noop_left(pow(c, qb as nat) - 1, ua, n);
    lemma_mul_mod_noop_left(vb - 1, ua, n);
    lemma_mul_mod_noop_left(pow(c, qa as nat) - 1, ub, n);
    lemma_mul_mod_noop_left(va - 1, ub, n);
}

/// Subtraction respects congruence.
proof fn lemma_sub_mod_noop_left(x: int, y: int, n: int)
    requires
        n > 1,
    ensures
        (x % n - y) % n == (x - y) % n,
{
    lemma_fundamental_div_mod(x, n);
    lemma_mod_multiples_vanish(x / n, x % n - y, n);
}

proof fn prime_661()
    ensures
        is_prime(661),
{
    assert(trial(661, 26, 26));
    assert(trial(661, 25, 26));
    assert(trial(661, 24, 26));
    assert(trial(661, 23, 26));
    assert(trial(661, 22, 26));
    assert(trial(661, 21, 26));
    assert(trial(661, 20, 26));
    assert(trial(661, 19, 26));
    assert(trial(661, 18, 26));
    assert(trial(661, 17, 26));
    assert(trial(661, 16, 26));
    assert(trial(661, 15, 26));
    assert(trial(661, 14, 26));
    assert(trial(661, 13, 26));
    assert(trial(661, 12, 26));
    assert(trial(661, 11, 26));
    assert(trial(661, 10, 26));
    assert(trial(661, 9, 26));
    assert(trial(661, 8, 26));
    assert(trial(661, 7, 26));
    assert(trial(661, 6, 26));
    assert(trial(661, 5, 26));
    assert(trial(661, 4, 26));
    assert(trial(661, 3, 26));
    assert(trial(661, 2, 26));
    lemma_trial_prime(661, 26);
}

proof fn prime_853()
    ensures
        is_prime(853),
{
    assert(trial(853, 30, 30));
    assert(trial(853, 29, 30));
    assert(trial(853, 28, 30));
    assert(trial(853, 27, 30));
    assert(trial(853, 26, 30));
    assert(trial(853, 25, 30));
    assert(trial(853, 24, 30));
    assert(trial(853, 23, 30));
    assert(trial(853, 22, 30));
    assert(trial(853, 21, 30));
    assert(trial(853, 20, 30));
    assert(trial(853, 19, 30));
    assert(trial(853, 18, 30));
    assert(trial(853, 17, 30));
    assert(trial(853, 16, 30));
    assert(trial(853, 15, 30));
    assert(trial(853, 14, 30));
    assert(trial(853, 13, 30));
    assert(trial(853, 12, 30));
    assert(trial(853, 11, 30));
    assert(trial(853, 10, 30));
    assert(trial(853, 9, 30));
    assert(trial(853, 8, 30));
    assert(trial(853, 7, 30));
    assert(trial(853, 6, 30));
    assert(trial(853, 5, 30));
    assert(trial(853, 4, 30));
    assert(trial(853, 3, 30));
    assert(trial(853, 2, 30));
    lemma_trial_prime(853, 30);
}

proof fn prime_1637()
    ensures
        is_prime(1637),
{
    assert(trial(1637, 41, 41));
    assert(trial(1637, 40, 41));
    assert(trial(1637, 39, 41));
    assert(trial(1637, 38, 41));
    assert(trial(1637, 37, 41));
    assert(trial(1637, 36, 41));
    assert(trial(1637, 35, 41));
    assert(trial(1637, 34, 41));
    assert(trial(1637, 33, 41));
    assert(trial(1637, 32, 41));
    assert(trial(1637, 31, 41));
    assert(trial(1637, 30, 41));
    assert(trial(1637, 29, 41));
    assert(trial(1637, 28, 41));
    assert(trial(1637, 27, 41));
    assert(trial(1637, 26, 41));
    assert(trial(1637, 25, 41));
    assert(trial(1637, 24, 41));
    assert(trial(1637, 23, 41));
    assert(trial(1637, 22, 41));
    assert(trial(1637, 21, 41));
    assert(trial(1637, 20, 41));
    assert(trial(1637, 19, 41));
    assert(trial(1637, 18, 41));
    assert(trial(1637, 17, 41));
    assert(trial(1637, 16, 41));
    assert(trial(1637, 15, 41));
    assert(trial(1637, 14, 41));
    assert(trial(1637, 13, 41));
    assert(trial(1637, 12, 41));
    assert(trial(1637, 11, 41));
    assert(trial(1637, 10, 41));
    assert(trial(1637, 9, 41));
    assert(trial(1637, 8, 41));
    assert(trial(1637, 7, 41));
    assert(trial(1637, 6, 41));
    assert(trial(1637, 5, 41));
    assert(trial(1637, 4, 41));
    assert(trial(1637, 3, 41));
    assert(trial(1637, 2, 41));
    lemma_trial_prime(1637, 41);
}

proof fn prime_93001()
    ensures
        is_prime(93001),
{
    assert(trial(93001, 305, 305));
    assert(trial(93001, 304, 305));
    assert(trial(93001, 303, 305));
    assert(trial(93001, 302, 305));
    assert(trial(93001, 301, 305));
    assert(trial(93001, 300, 305));
    assert(trial(93001, 299, 305));
    assert(trial(93001, 298, 305));
    assert(trial(93001, 297, 305));
    assert(trial(93001, 296, 305));
    assert(trial(93001, 295, 305));
    assert(trial(93001, 294, 305));
    assert(trial(93001, 293, 305));
    assert(trial(93001, 292, 305));
    assert(trial(93001, 291, 305));
    assert(trial(93001, 290, 305));
    assert(trial(93001, 289, 305));
    assert(trial(93001, 288, 305));
    assert(trial(93001, 287, 305));
    assert(trial(93001, 286, 305));
    assert(trial(93001, 285, 305));
    assert(trial(93001, 284, 305));
    assert(trial(93001, 283, 305));
    assert(trial(93001, 282, 305));
    assert(trial(93001, 281, 305));
    assert(trial(93001, 280, 305));
    assert(trial(93001, 279, 305));
    assert(trial(93001, 278, 305));
    assert(trial(93001, 277, 305));
    assert(trial(93001, 276, 305));
    assert(trial(93001, 275, 305));
    assert(trial(93001, 274, 305));
    assert(trial(93001, 273, 305));
    assert(trial(93001, 272, 305));
    assert(trial(93001, 271, 305));
    assert(trial(93001, 270, 305));
    assert(trial(93001, 269, 305));
    assert(trial(93001, 268, 305));
    assert(trial(93001, 267, 305));
    assert(trial(93001, 266, 305));
    assert(trial(93001, 265, 305));
    assert(trial(93001, 264, 305));
    assert(trial(93001, 263, 305));
    assert(trial(93001, 262, 305));
    assert(trial(93001, 261, 305));
    assert(trial(93001, 260, 305));
    assert(trial(93001, 259, 305));
    assert(trial(93001, 258, 305));
    assert(trial(93001, 257, 305));
    assert(trial(93001, 256, 305));
    assert(trial(93001, 255, 305));
    assert(trial(93001, 254, 305));
    assert(trial(93001, 253, 305));
    assert(trial(93001, 252, 305));
    assert(trial(93001, 251, 305));
    assert(trial(93001, 250, 305));
    assert(trial(93001, 249, 305));
    assert(trial(93001, 248, 305));
    assert(trial(93001, 247, 305));
    assert(trial(93001, 246, 305));
    assert(trial(93001, 245, 305));
    assert(trial(93001, 244, 305));
    assert(trial(93001, 243, 305));
    assert(trial(93001, 242, 305));
    assert(trial(93001, 241, 305));
    assert(trial(93001, 240, 305));
    assert(trial(93001, 239, 305));
    assert(trial(93001, 238, 305));
    assert(trial(93001, 237, 305));
    assert(trial(93001, 236, 305));
    assert(trial(93001, 235, 305));
    assert(trial(93001, 234, 305));
    assert(trial(93001, 233, 305));
    assert(trial(93001, 232, 305));
    assert(trial(93001, 231, 305));
    assert(trial(93001, 230, 305));
    assert(trial(93001, 229, 305));
    assert(trial(93001, 228, 305));
    assert(trial(93001, 227, 305));
    assert(trial(93001, 226, 305));
    assert(trial(93001, 225, 305));
    assert(trial(93001, 224, 305));
    assert(trial(93001, 223, 305));
    assert(trial(93001, 222, 305));
    assert(trial(93001, 221, 305));
    assert(trial(93001, 220, 305));
    assert(trial(93001, 219, 305));
    assert(trial(93001, 218, 305));
    assert(trial(93001, 217, 305));
    assert(trial(93001, 216, 305));
    assert(trial(93001, 215, 305));
    assert(trial(93001, 214, 305));
    assert(trial(93001, 213, 305));
    assert(trial(93001, 212, 305));
    assert(trial(93001, 211, 305));
    assert(trial(93001, 210, 305));
    assert(trial(93001, 209, 305));
    assert(trial(93001, 208, 305));
    assert(trial(93001, 207, 305));
    assert(trial(93001, 206, 305));
    assert(trial(93001, 205, 305));
    assert(trial(93001, 204, 305));
    assert(trial(93001, 203, 305));
    assert(trial(93001, 202, 305));
    assert(trial(93001, 201, 305));
    assert(trial(93001, 200, 305));
    assert(trial(93001, 199, 305));
    assert(trial(93001, 198, 305));
    assert(trial(93001, 197, 305));
    assert(trial(93001, 196, 305));
    assert(trial(93001, 195, 305));
    assert(trial(93001, 194, 305));
    assert(trial(93001, 193, 305));
    assert(trial(93001, 192, 305));
    assert(trial(93001, 191, 305));
    assert(trial(93001, 190, 305));
    assert(trial(93001, 189, 305));
    assert(trial(93001, 188, 305));
    assert(trial(93001, 187, 305));
    assert(trial(93001, 186, 305));
    assert(trial(93001, 185, 305));
    assert(trial(93001, 184, 305));
    assert(trial(93001, 183, 305));
    assert(trial(93001, 182, 305));
    assert(trial(93001, 181, 305));
    assert(trial(93001, 180, 305));
    assert(trial(93001, 179, 305));
    assert(trial(93001, 178, 305));
    assert(trial(93001, 177, 305));
    assert(trial(93001, 176, 305));
    assert(trial(93001, 175, 305));
    assert(trial(93001, 174, 305));
    assert(trial(93001, 173, 305));
    assert(trial(93001, 172, 305));
    assert(trial(93001, 171, 305));
    assert(trial(93001, 170, 305));
    assert(trial(93001, 169, 305));
    assert(trial(93001, 168, 305));
    assert(trial(93001, 167, 305));
    assert(trial(93001, 166, 305));
    assert(trial(93001, 165, 305));
    assert(trial(93001, 164, 305));
    assert(trial(93001, 163, 305));
    assert(trial(93001, 162, 305));
    assert(trial(93001, 161, 305));
    assert(trial(93001, 160, 305));
    assert(trial(93001, 159, 305));
    assert(trial(93001, 158, 305));
    assert(trial(93001, 157, 305));
    assert(trial(93001, 156, 305));
    assert(trial(93001, 155, 305));
    assert(trial(93001, 154, 305));
    assert(trial(93001, 153, 305));
    assert(trial(93001, 152, 305));
    assert(trial(93001, 151, 305));
    assert(trial(93001, 150, 305));
    assert(trial(93001, 149, 305));
    assert(trial(93001, 148, 305));
    assert(trial(93001, 147, 305));
    assert(trial(93001, 146, 305));
    assert(trial(93001, 145, 305));
    assert(trial(93001, 144, 305));
    assert(trial(93001, 143, 305));
    assert(trial(93001, 142, 305));
    assert(trial(93001, 141, 305));
    assert(trial(93001, 140, 305));
    assert(trial(93001, 139, 305));
    assert(trial(93001, 138, 305));
    assert(trial(93001, 137, 305));
    assert(trial(93001, 136, 305));
    assert(trial(93001, 135, 305));
    assert(trial(93001, 134, 305));
    assert(trial(93001, 133, 305));
    assert(trial(93001, 132, 305));
    assert(trial(93001, 131, 305));
    assert(trial(93001, 130, 305));
    assert(trial(93001, 129, 305));
    assert(trial(93001, 128, 305));
    assert(trial(93001, 127, 305));
    assert(trial(93001, 126, 305));
    assert(trial(93001, 125, 305));
    assert(trial(93001, 124, 305));
    assert(trial(93001, 123, 305));
    assert(trial(93001, 122, 305));
    assert(trial(93001, 121, 305));
    assert(trial(93001, 120, 305));
    assert(trial(93001, 119, 305));
    assert(trial(93001, 118, 305));
    assert(trial(93001, 117, 305));
    assert(trial(93001, 116, 305));
    assert(trial(93001, 115, 305));
    assert(trial(93001, 114, 305));
    assert(trial(93001, 113, 305));
    assert(trial(93001, 112, 305));
    assert(trial(93001, 111, 305));
    assert(trial(93001, 110, 305));
    assert(trial(93001, 109, 305));
    assert(trial(93001, 108, 305));
    assert(trial(93001, 107, 305));
    assert(trial(93001, 106, 305));
    assert(trial(93001, 105, 305));
    assert(trial(93001, 104, 305));
    assert(trial(93001, 103, 305));
    assert(trial(93001, 102, 305));
    assert(trial(93001, 101, 305));
    assert(trial(93001, 100, 305));
    assert(trial(93001, 99, 305));
    assert(trial(93001, 98, 305));
    assert(trial(93001, 97, 305));
    assert(trial(93001, 96, 305));
    assert(trial(93001, 95, 305));
    assert(trial(93001, 94, 305));
    assert(trial(93001, 93, 305));
    assert(trial(93001, 92, 305));
    assert(trial(93001, 91, 305));
    assert(trial(93001, 90, 305));
    assert(trial(93001, 89, 305));
    assert(trial(93001, 88, 305));
    assert(trial(93001, 87, 305));
    assert(trial(93001, 86, 305));
    assert(trial(93001, 85, 305));
    assert(trial(93001, 84, 305));
    assert(trial(93001, 83, 305));
    assert(trial(93001, 82, 305));
    assert(trial(93001, 81, 305));
    assert(trial(93001, 80, 305));
    assert(trial(93001, 79, 305));
    assert(trial(93001, 78, 305));
    assert(trial(93001, 77, 305));
    assert(trial(93001, 76, 305));
    assert(trial(93001, 75, 305));
    assert(trial(93001, 74, 305));
    assert(trial(93001, 73, 305));
    assert(trial(93001, 72, 305));
    assert(trial(93001, 71, 305));
    assert(trial(93001, 70, 305));
    assert(trial(93001, 69, 305));
    assert(trial(93001, 68, 305));
    assert(trial(93001, 67, 305));
    assert(trial(93001, 66, 305));
    assert(trial(93001, 65, 305));
    assert(trial(93001, 64, 305));
    assert(trial(93001, 63, 305));
    assert(trial(93001, 62, 305));
    assert(trial(93001, 61, 305));
    assert(trial(93001, 60, 305));
    assert(trial(93001, 59, 305));
    assert(trial(93001, 58, 305));
    assert(trial(93001, 57, 305));
    assert(trial(93001, 56, 305));
    assert(trial(93001, 55, 305));
    assert(trial(93001, 54, 305));
    assert(trial(93001, 53, 305));
    assert(trial(93001, 52, 305));
    assert(trial(93001, 51, 305));
    assert(trial(93001, 50, 305));
    assert(trial(93001, 49, 305));
    assert(trial(93001, 48, 305));
    assert(trial(93001, 47, 305));
    assert(trial(93001, 46, 305));
    assert(trial(93001, 45, 305));
    assert(trial(93001, 44, 305));
    assert(trial(93001, 43, 305));
    assert(trial(93001, 42, 305));
    assert(trial(93001, 41, 305));
    assert(trial(93001, 40, 305));
    assert(trial(93001, 39, 305));
    assert(trial(93001, 38, 305));
    assert(trial(93001, 37, 305));
    assert(trial(93001, 36, 305));
    assert(trial(93001, 35, 305));
    assert(trial(93001, 34, 305));
    assert(trial(93001, 33, 305));
    assert(trial(93001, 32, 305));
    assert(trial(93001, 31, 305));
    assert(trial(93001, 30, 305));
    assert(trial(93001, 29, 305));
    assert(trial(93001, 28, 305));
    assert(trial(93001, 27, 305));
    assert(trial(93001, 26, 305));
    assert(trial(93001, 25, 305));
    assert(trial(93001, 24, 305));
    assert(trial(93001, 23, 305));
    assert(trial(93001, 22, 305));
    assert(trial(93001, 21, 305));
    assert(trial(93001, 20, 305));
    assert(trial(93001, 19, 305));
    assert(trial(93001, 18, 305));
    assert(trial(93001, 17, 305));
    assert(trial(93001, 16, 305));
    assert(trial(93001, 15, 305));
    assert(trial(93001, 14, 305));
    assert(trial(93001, 13, 305));
    assert(trial(93001, 12, 305));
    assert(trial(93001, 11, 305));
    assert(trial(93001, 10, 305));
    assert(trial(93001, 9, 305));
    assert(trial(93001, 8, 305));
    assert(trial(93001, 7, 305));
    assert(trial(93001, 6, 305));
    assert(trial(93001, 5, 305));
    assert(trial(93001, 4, 305));
    assert(trial(93001, 3, 305));
    assert(trial(93001, 2, 305));
    lemma_trial_prime(93001, 305);
}

proof fn b_power_a_0()
    ensures
        pow(569936353, 853) % 639533339 == 248876995,
{
    let (n, c): (int, int) = (639533339, 569936353);
    lemma_pow1(c);
    let v: int = 569936353;
    let w: int = 576757596;
    square_times(c, 1, n, v, w);
    let v: int = w;
    let w: int = 346350812;
    square(c, 3, n, v, w);
    let v: int = w;
    let w: int = 580870054;
    square_times(c, 6, n, v, w);
    let v: int = w;
    let w: int = 307631766;
    square(c, 13, n, v, w);
    let v: int = w;
    let w: int = 48885504;
    square_times(c, 26, n, v, w);
    let v: int = w;
    let w: int = 308492291;
    square(c, 53, n, v, w);
    let v: int = w;
    let w: int = 315972641;
    square_times(c, 106, n, v, w);
    let v: int = w;
    let w: int = 195747935;
    square(c, 213, n, v, w);
    let v: int = w;
    let w: int = 248876995;
    square_times(c, 426, n, v, w);
    let v: int = w;
}

proof fn b_power_b_0()
    ensures
        pow(569936353, 1637) % 639533339 == 256057581,
{
    let (n, c): (int, int) = (639533339, 569936353);
    lemma_pow1(c);
    let v: int = 569936353;
    let w: int = 576757596;
    square_times(c, 1, n, v, w);
    let v: int = w;
    let w: int = 346350812;
    square(c, 3, n, v, w);
    let v: int = w;
    let w: int = 476081691;
    square(c, 6, n, v, w);
    let v: int = w;
    let w: int = 282182576;
    square_times(c, 12, n, v, w);
    let v: int = w;
    let w: int = 144132996;
    square_times(c, 25, n, v, w);
    let v: int = w;
    let w: int = 306995837;
    square(c, 51, n, v, w);
    let v: int = w;
    let w: int = 530514611;
    square(c, 102, n, v, w);
    let v: int = w;
    let w: int = 148227881;
    square_times(c, 204, n, v, w);
    let v: int = w;
    let w: int = 449868847;
    square(c, 409, n, v, w);
    let v: int = w;
    let w: int = 256057581;
    square_times(c, 818, n, v, w);
    let v: int = w;
}

proof fn b_power_ab_0()
    ensures
        pow(256057581, 853) % 639533339 == 1,
{
    let (n, c): (int, int) = (639533339, 256057581);
    lemma_pow1(c);
    let v: int = 256057581;
    let w: int = 209004351;
    square_times(c, 1, n, v, w);
    let v: int = w;
    let w: int = 526940689;
    square(c, 3, n, v, w);
    let v: int = w;
    let w: int = 601994091;
    square_times(c, 6, n, v, w);
    let v: int = w;
    let w: int = 55785818;
    square(c, 13, n, v, w);
    let v: int = w;
    let w: int = 232575578;
    square_times(c, 26, n, v, w);
    let v: int = w;
    let w: int = 308150347;
    square(c, 53, n, v, w);
    let v: int = w;
    let w: int = 286739634;
    square_times(c, 106, n, v, w);
    let v: int = w;
    let w: int = 368469890;
    square(c, 213, n, v, w);
    let v: int = w;
    let w: int = 1;
    square_times(c, 426, n, v, w);
    let v: int = w;
}

proof fn prime_b()
    ensures
        is_prime(639533339),
{
    prime_853();
    prime_1637();
    b_power_a_0();
    b_power_b_0();
    b_power_ab_0();
    lemma_pair_power(569936353, 853, 1637, 639533339, 248876995, 256057581, 303978671, 296391531);
    lemma_certificate_pair(639533339, 569936353, 853, 1637, 303978671, 296391531);
}

proof fn a_power_0()
    ensures
        pow(8595199928015311int, 639533339) % 65865678001877903int == 1,
{
    let (n, c): (int, int) = (65865678001877903int, 8595199928015311int);
    lemma_pow1(c);
    let v: int = 8595199928015311int;
    let w: int = 19226070235069677int;
    square(c, 1, n, v, w);
    let v: int = w;
    let w: int = 56968334197042590int;
    square(c, 2, n, v, w);
    let v: int = w;
    let w: int = 18611656393288241int;
    square_times(c, 4, n, v, w);
    let v: int = w;
    let w: int = 43734149829486000int;
    square_times(c, 9, n, v, w);
    let v: int = w;
    let w: int = 48447415136911303int;
    square(c, 19, n, v, w);
    let v: int = w;
    let w: int = 64820389105270256int;
    square(c, 38, n, v, w);
    let v: int = w;
    let w: int = 51329992322973469int;
    square(c, 76, n, v, w);
    let v: int = w;
    let w: int = 61286237417813760int;
    square(c, 152, n, v, w);
    let v: int = w;
    let w: int = 58465146411114843int;
    square_times(c, 304, n, v, w);
    let v: int = w;
    let w: int = 25160803760737125int;
    square_times(c, 609, n, v, w);
    let v: int = w;
    let w: int = 43282835694537230int;
    square_times(c, 1219, n, v, w);
    let v: int = w;
    let w: int = 17564606142202988int;
    square_times(c, 2439, n, v, w);
    let v: int = w;
    let w: int = 55317398354378580int;
    square(c, 4879, n, v, w);
    let v: int = w;
    let w: int = 1018752242786798int;
    square_times(c, 9758, n, v, w);
    let v: int = w;
    let w: int = 12272844760177368int;
    square(c, 19517, n, v, w);
    let v: int = w;
    let w: int = 60491326033384519int;
    square(c, 39034, n, v, w);
    let v: int = w;
    let w: int = 51365274646233044int;
    square(c, 78068, n, v, w);
    let v: int = w;
    let w: int = 35194706668242559int;
    square(c, 156136, n, v, w);
    let v: int = w;
    let w: int = 41777112883480135int;
    square(c, 312272, n, v, w);
    let v: int = w;
    let w: int = 38459179869673960int;
    square(c, 624544, n, v, w);
    let v: int = w;
    let w: int = 34048583907657784int;
    square_times(c, 1249088, n, v, w);
    let v: int = w;
    let w: int = 64143099883154873int;
    square(c, 2498177, n, v, w);
    let v: int = w;
    let w: int = 7159896889705541int;
    square(c, 4996354, n, v, w);
    let v: int = w;
    let w: int = 33061215984632264int;
    square(c, 9992708, n, v, w);
    let v: int = w;
    let w: int = 45545585862734603int;
    square_times(c, 19985416, n, v, w);
    let v: int = w;
    let w: int = 60626625102889057int;
    square_times(c, 39970833, n, v, w);
    let v: int = w;
    let w: int = 57018535114983506int;
    square(c, 79941667, n, v, w);
    let v: int = w;
    let w: int = 51349957123922359int;
    square_times(c, 159883334, n, v, w);
    let v: int = w;
    let w: int = 1;
    square_times(c, 319766669, n, v, w);
    let v: int = w;
}

proof fn prime_a()
    ensures
        is_prime(65865678001877903int),
{
    prime_b();
    a_power_0();
    assert((8595199928015311int - 1) * 39033286818209505int % 65865678001877903int == 1);
    lemma_certificate(65865678001877903int, 8595199928015311int, 639533339, 39033286818209505int);
}

proof fn q1_power_0()
    ensures
        pow(7935281130018080704632618576int, 65865678001877903nat) % 13818364434197438864469338081int == 1,
{
    let (n, c): (int, int) = (13818364434197438864469338081int, 7935281130018080704632618576int);
    lemma_pow1(c);
    let v: int = 7935281130018080704632618576int;
    let w: int = 6024626098376368604520791548int;
    square_times(c, 1, n, v, w);
    let v: int = w;
    let w: int = 12956526157738010221657952029int;
    square_times(c, 3, n, v, w);
    let v: int = w;
    let w: int = 13033178315209579486208481915int;
    square(c, 7, n, v, w);
    let v: int = w;
    let w: int = 9317283377009505927246043607int;
    square_times(c, 14, n, v, w);
    let v: int = w;
    let w: int = 3487141057479528001213568715int;
    square(c, 29, n, v, w);
    let v: int = w;
    let w: int = 8970463893610592358603246707int;
    square_times(c, 58, n, v, w);
    let v: int = w;
    let w: int = 13047074007182443388793947416int;
    square(c, 117, n, v, w);
    let v: int = w;
    let w: int = 1735893499133178782183529707int;
    square(c, 234, n, v, w);
    let v: int = w;
    let w: int = 2277860932176299701036661121int;
    square(c, 468, n, v, w);
    let v: int = w;
    let w: int = 10456841577218911324352461447int;
    square(c, 936, n, v, w);
    let v: int = w;
    let w: int = 11582084072275290222046741408int;
    square(c, 1872, n, v, w);
    let v: int = w;
    let w: int = 4440869139873206848644823141int;
    square(c, 3744, n, v, w);
    let v: int = w;
    let w: int = 8368951715619670804580817870int;
    square(c, 7488, n, v, w);
    let v: int = w;
    let w: int = 9262168650417991593144528480int;
    square(c, 14976, n, v, w);
    let v: int = w;
    let w: int = 10413093752592839881829586129int;
    square(c, 29952, n, v, w);
    let v: int = w;
    let w: int = 11541844625233648289585365274int;
    square(c, 59904, n, v, w);
    let v: int = w;
    let w: int = 4089172793395676412059969189int;
    square_times(c, 119808, n, v, w);
    let v: int = w;
    let w: int = 123795530186511610780831045int;
    square_times(c, 239617, n, v, w);
    let v: int = w;
    let w: int = 3995911146589813549241500956int;
    square_times(c, 479235, n, v, w);
    let v: int = w;
    let w: int = 7213163208392189156475395815int;
    square_times(c, 958471, n, v, w);
    let v: int = w;
    let w: int = 3274665168306567780251474939int;
    square_times(c, 1916943, n, v, w);
    let v: int = w;
    let w: int = 7783209883449169180516943092int;
    square(c, 3833887, n, v, w);
    let v: int = w;
    let w: int = 12137052172119357729802499609int;
    square(c, 7667774, n, v, w);
    let v: int = w;
    let w: int = 753190004820108438227960086int;
    square(c, 15335548, n, v, w);
    let v: int = w;
    let w: int = 9480013504884722808418395875int;
    square(c, 30671096, n, v, w);
    let v: int = w;
    let w: int = 10310184326597100927003724519int;
    square_times(c, 61342192, n, v, w);
    let v: int = w;
    let w: int = 3138503201478530464709256003int;
    square_times(c, 122684385, n, v, w);
    let v: int = w;
    let w: int = 12483562629543047011950850809int;
    square(c, 245368771, n, v, w);
    let v: int = w;
    let w: int = 2281409498763660828057122321int;
    square_times(c, 490737542, n, v, w);
    let v: int = w;
    let w: int = 8432267785655359550494713763int;
    square(c, 981475085, n, v, w);
    let v: int = w;
    let w: int = 9286782187083334098797683226int;
    square(c, 1962950170, n, v, w);
    let v: int = w;
    let w: int = 7349931621413274043139007121int;
    square(c, 3925900340nat, n, v, w);
    let v: int = w;
    let w: int = 11241010701785258861774228018int;
    square(c, 7851800680nat, n, v, w);
    let v: int = w;
    let w: int = 10495543114326162342869356054int;
    square_times(c, 15703601360nat, n, v, w);
    let v: int = w;
    let w: int = 1878424754868214010089219927int;
    square_times(c, 31407202721nat, n, v, w);
    let v: int = w;
    let w: int = 7214738950431482892676211854int;
    square(c, 62814405443nat, n, v, w);
    let v: int = w;
    let w: int = 8378849114816027470545259614int;
    square(c, 125628810886nat, n, v, w);
    let v: int = w;
    let w: int = 12903809095485579282294832217int;
    square(c, 251257621772nat, n, v, w);
    let v: int = w;
    let w: int = 10620567016425678254099014230int;
    square_times(c, 502515243544nat, n, v, w);
    let v: int = w;
    let w: int = 2552326705477704630885573290int;
    square(c, 1005030487089nat, n, v, w);
    let v: int = w;
    let w: int = 93879213923488799007543223int;
    square(c, 2010060974178nat, n, v, w);
    let v: int = w;
    let w: int = 5861745727356882287855134263int;
    square_times(c, 4020121948356nat, n, v, w);
    let v: int = w;
    let w: int = 5715998367833451257024545553int;
    square_times(c, 8040243896713nat, n, v, w);
    let v: int = w;
    let w: int = 9315829236175563345934962545int;
    square(c, 16080487793427nat, n, v, w);
    let v: int = w;
    let w: int = 6932638189365131593329946845int;
    square(c, 32160975586854nat, n, v, w);
    let v: int = w;
    let w: int = 3083762274448825405925025177int;
    square_times(c, 64321951173708nat, n, v, w);
    let v: int = w;
    let w: int = 3124199797785987746960266099int;
    square_times(c, 128643902347417nat, n, v, w);
    let v: int = w;
    let w: int = 3057894684126085342478126306int;
    square_times(c, 257287804694835nat, n, v, w);
    let v: int = w;
    let w: int = 3859583265371772333019919582int;
    square(c, 514575609389671nat, n, v, w);
    let v: int = w;
    let w: int = 6246147404744190337875264163int;
    square(c, 1029151218779342nat, n, v, w);
    let v: int = w;
    let w: int = 7624688656232388209735739235int;
    square(c, 2058302437558684nat, n, v, w);
    let v: int = w;
    let w: int = 5751857602344423908298335459int;
    square_times(c, 4116604875117368nat, n, v, w);
    let v: int = w;
    let w: int = 9228697715789270620358885072int;
    square_times(c, 8233209750234737nat, n, v, w);
    let v: int = w;
    let w: int = 7213377970993644489293477400int;
    square_times(c, 16466419500469475nat, n, v, w);
    let v: int = w;
    let w: int = 1;
    square_times(c, 32932839000938951nat, n, v, w);
    let v: int = w;
}

proof fn prime_q1()
    ensures
        is_prime(13818364434197438864469338081int),
{
    prime_a();
    q1_power_0();
    assert((7935281130018080704632618576int - 1) * 12281824895882260584345986666int % 13818364434197438864469338081int == 1);
    lemma_certificate(13818364434197438864469338081int, 7935281130018080704632618576int, 65865678001877903int, 12281824895882260584345986666int);
}

proof fn d_power_a_0()
    ensures
        pow(9314271357int, 661) % 12048837557int == 4746995210int,
{
    let (n, c): (int, int) = (12048837557int, 9314271357int);
    lemma_pow1(c);
    let v: int = 9314271357int;
    let w: int = 9168089018int;
    square(c, 1, n, v, w);
    let v: int = w;
    let w: int = 4061668814int;
    square_times(c, 2, n, v, w);
    let v: int = w;
    let w: int = 9046522363int;
    square(c, 5, n, v, w);
    let v: int = w;
    let w: int = 6578070318int;
    square(c, 10, n, v, w);
    let v: int = w;
    let w: int = 5082060440int;
    square_times(c, 20, n, v, w);
    let v: int = w;
    let w: int = 1427382409;
    square(c, 41, n, v, w);
    let v: int = w;
    let w: int = 8433024288int;
    square_times(c, 82, n, v, w);
    let v: int = w;
    let w: int = 4031795360int;
    square(c, 165, n, v, w);
    let v: int = w;
    let w: int = 4746995210int;
    square_times(c, 330, n, v, w);
    let v: int = w;
}

proof fn d_power_b_0()
    ensures
        pow(9314271357int, 93001) % 12048837557int == 8877273464int,
{
    let (n, c): (int, int) = (12048837557int, 9314271357int);
    lemma_pow1(c);
    let v: int = 9314271357int;
    let w: int = 9168089018int;
    square(c, 1, n, v, w);
    let v: int = w;
    let w: int = 4061668814int;
    square_times(c, 2, n, v, w);
    let v: int = w;
    let w: int = 7562296142int;
    square_times(c, 5, n, v, w);
    let v: int = w;
    let w: int = 234144577;
    square(c, 11, n, v, w);
    let v: int = w;
    let w: int = 2768983253int;
    square_times(c, 22, n, v, w);
    let v: int = w;
    let w: int = 6628019596int;
    square(c, 45, n, v, w);
    let v: int = w;
    let w: int = 4241546384int;
    square_times(c, 90, n, v, w);
    let v: int = w;
    let w: int = 347048005;
    square_times(c, 181, n, v, w);
    let v: int = w;
    let w: int = 4910460436int;
    square(c, 363, n, v, w);
    let v: int = w;
    let w: int = 10782540533int;
    square_times(c, 726, n, v, w);
    let v: int = w;
    let w: int = 4918240498int;
    square(c, 1453, n, v, w);
    let v: int = w;
    let w: int = 11866516789int;
    square(c, 2906, n, v, w);
    let v: int = w;
    let w: int = 332226191;
    square_times(c, 5812, n, v, w);
    let v: int = w;
    let w: int = 10078003434int;
    square(c, 11625, n, v, w);
    let v: int = w;
    let w: int = 3456573169int;
    square(c, 23250, n, v, w);
    let v: int = w;
    let w: int = 8877273464int;
    square_times(c, 46500, n, v, w);
    let v: int = w;
}

proof fn d_power_ab_0()
    ensures
        pow(8877273464int, 661) % 12048837557int == 1,
{
    let (n, c): (int, int) = (12048837557int, 8877273464int);
    lemma_pow1(c);
    let v: int = 8877273464int;
    let w: int = 10710350132int;
    square(c, 1, n, v, w);
    let v: int = w;
    let w: int = 11770248475int;
    square_times(c, 2, n, v, w);
    let v: int = w;
    let w: int = 367603087;
    square(c, 5, n, v, w);
    let v: int = w;
    let w: int = 2886329163int;
    square(c, 10, n, v, w);
    let v: int = w;
    let w: int = 392452655;
    square_times(c, 20, n, v, w);
    let v: int = w;
    let w: int = 809173725;
    square(c, 41, n, v, w);
    let v: int = w;
    let w: int = 2042184382;
    square_times(c, 82, n, v, w);
    let v: int = w;
    let w: int = 34599137;
    square(c, 165, n, v, w);
    let v: int = w;
    let w: int = 1;
    square_times(c, 330, n, v, w);
    let v: int = w;
}

proof fn prime_d()
    ensures
        is_prime(12048837557int),
{
    prime_661();
    prime_93001();
    d_power_a_0();
    d_power_b_0();
    d_power_ab_0();
    lemma_pair_power(9314271357int, 661, 93001, 12048837557int, 4746995210int, 8877273464int, 1826643224, 10304344409int);
    lemma_certificate_pair(12048837557int, 9314271357int, 661, 93001, 1826643224, 10304344409int);
}

proof fn c_power_0()
    ensures
        pow(4746712836098int, 12048837557nat) % 5156902474397int == 1,
{
    let (n, c): (int, int) = (5156902474397int, 4746712836098int);
    lemma_pow1(c);
    let v: int = 4746712836098int;
    let w: int = 4873537632190int;
    square(c, 1, n, v, w);
    let v: int = w;
    let w: int = 3644367028578int;
    square_times(c, 2, n, v, w);
    let v: int = w;
    let w: int = 1512708647324int;
    square_times(c, 5, n, v, w);
    let v: int = w;
    let w: int = 2458361394247int;
    square(c, 11, n, v, w);
    let v: int = w;
    let w: int = 1372198352576int;
    square(c, 22, n, v, w);
    let v: int = w;
    let w: int = 3985494425225int;
    square_times(c, 44, n, v, w);
    let v: int = w;
    let w: int = 3534033127334int;
    square_times(c, 89, n, v, w);
    let v: int = w;
    let w: int = 2097983046559int;
    square_times(c, 179, n, v, w);
    let v: int = w;
    let w: int = 3949638834514int;
    square(c, 359, n, v, w);
    let v: int = w;
    let w: int = 2886924168213int;
    square(c, 718, n, v, w);
    let v: int = w;
    let w: int = 4889216364411int;
    square(c, 1436, n, v, w);
    let v: int = w;
    let w: int = 1186104587753int;
    square_times(c, 2872, n, v, w);
    let v: int = w;
    let w: int = 4863306363187int;
    square(c, 5745, n, v, w);
    let v: int = w;
    let w: int = 3528003011007int;
    square_times(c, 11490, n, v, w);
    let v: int = w;
    let w: int = 569229458997int;
    square(c, 22981, n, v, w);
    let v: int = w;
    let w: int = 4322973491138int;
    square_times(c, 45962, n, v, w);
    let v: int = w;
    let w: int = 1056634934969int;
    square(c, 91925, n, v, w);
    let v: int = w;
    let w: int = 2967256843868int;
    square_times(c, 183850, n, v, w);
    let v: int = w;
    let w: int = 4214317258230int;
    square(c, 367701, n, v, w);
    let v: int = w;
    let w: int = 2005289838737int;
    square_times(c, 735402, n, v, w);
    let v: int = w;
    let w: int = 2188467409472int;
    square(c, 1470805, n, v, w);
    let v: int = w;
    let w: int = 2598843926205int;
    square_times(c, 2941610, n, v, w);
    let v: int = w;
    let w: int = 4903139152562int;
    square(c, 5883221, n, v, w);
    let v: int = w;
    let w: int = 2379638444348int;
    square_times(c, 11766442, n, v, w);
    let v: int = w;
    let w: int = 4488210961748int;
    square_times(c, 23532885, n, v, w);
    let v: int = w;
    let w: int = 2385369468561int;
    square_times(c, 47065771, n, v, w);
    let v: int = w;
    let w: int = 2260607923718int;
    square(c, 94131543, n, v, w);
    let v: int = w;
    let w: int = 4942587966814int;
    square_times(c, 188263086, n, v, w);
    let v: int = w;
    let w: int = 1513905999439int;
    square_times(c, 376526173, n, v, w);
    let v: int = w;
    let w: int = 3368897426571int;
    square(c, 753052347, n, v, w);
    let v: int = w;
    let w: int = 4570632802352int;
    square_times(c, 1506104694, n, v, w);
    let v: int = w;
    let w: int = 3938668016706int;
    square(c, 3012209389nat, n, v, w);
    let v: int = w;
    let w: int = 1;
    square_times(c, 6024418778nat, n, v, w);
    let v: int = w;
}

proof fn prime_c()
    ensures
        is_prime(5156902474397int),
{
    prime_d();
    c_power_0();
    assert((4746712836098int - 1) * 5089286551700int % 5156902474397int == 1);
    lemma_certificate(5156902474397int, 4746712836098int, 12048837557int, 5089286551700int);
}

proof fn q2_power_0()
    ensures
        pow(11046204280772int, 5156902474397nat) % 1670836401704629int == 1,
{
    let (n, c): (int, int) = (1670836401704629int, 11046204280772int);
    lemma_pow1(c);
    let v: int = 11046204280772int;
    let w: int = 1662414987046364int;
    square(c, 1, n, v, w);
    let v: int = w;
    let w: int = 243335622413464int;
    square(c, 2, n, v, w);
    let v: int = w;
    let w: int = 938638730596843int;
    square_times(c, 4, n, v, w);
    let v: int = w;
    let w: int = 824118890218688int;
    square(c, 9, n, v, w);
    let v: int = w;
    let w: int = 267262586498538int;
    square_times(c, 18, n, v, w);
    let v: int = w;
    let w: int = 49492090486633int;
    square_times(c, 37, n, v, w);
    let v: int = w;
    let w: int = 307337505430343int;
    square(c, 75, n, v, w);
    let v: int = w;
    let w: int = 142460584602657int;
    square(c, 150, n, v, w);
    let v: int = w;
    let w: int = 1084549957119634int;
    square(c, 300, n, v, w);
    let v: int = w;
    let w: int = 1080461158659793int;
    square(c, 600, n, v, w);
    let v: int = w;
    let w: int = 772960424580221int;
    square_times(c, 1200, n, v, w);
    let v: int = w;
    let w: int = 811442543936487int;
    square(c, 2401, n, v, w);
    let v: int = w;
    let w: int = 1514683984251661int;
    square_times(c, 4802, n, v, w);
    let v: int = w;
    let w: int = 1113683759450937int;
    square(c, 9605, n, v, w);
    let v: int = w;
    let w: int = 1494067479693012int;
    square_times(c, 19210, n, v, w);
    let v: int = w;
    let w: int = 1470387515290701int;
    square_times(c, 38421, n, v, w);
    let v: int = w;
    let w: int = 674188219219632int;
    square_times(c, 76843, n, v, w);
    let v: int = w;
    let w: int = 1364249210607750int;
    square_times(c, 153687, n, v, w);
    let v: int = w;
    let w: int = 1330217670466045int;
    square(c, 307375, n, v, w);
    let v: int = w;
    let w: int = 185921603602951int;
    square_times(c, 614750, n, v, w);
    let v: int = w;
    let w: int = 1245520574938995int;
    square(c, 1229501, n, v, w);
    let v: int = w;
    let w: int = 31384141629922int;
    square_times(c, 2459002, n, v, w);
    let v: int = w;
    let w: int = 532800708973965int;
    square(c, 4918005, n, v, w);
    let v: int = w;
    let w: int = 338760206885147int;
    square_times(c, 9836010, n, v, w);
    let v: int = w;
    let w: int = 1321478185456450int;
    square_times(c, 19672021, n, v, w);
    let v: int = w;
    let w: int = 566863234295377int;
    square_times(c, 39344043, n, v, w);
    let v: int = w;
    let w: int = 860630985012453int;
    square(c, 78688087, n, v, w);
    let v: int = w;
    let w: int = 1651831741258945int;
    square(c, 157376174, n, v, w);
    let v: int = w;
    let w: int = 1613023119241294int;
    square(c, 314752348, n, v, w);
    let v: int = w;
    let w: int = 498053521471380int;
    square_times(c, 629504696, n, v, w);
    let v: int = w;
    let w: int = 826988066168908int;
    square(c, 1259009393, n, v, w);
    let v: int = w;
    let w: int = 865056267209583int;
    square(c, 2518018786nat, n, v, w);
    let v: int = w;
    let w: int = 287668427336427int;
    square_times(c, 5036037572nat, n, v, w);
    let v: int = w;
    let w: int = 337174974857465int;
    square(c, 10072075145nat, n, v, w);
    let v: int = w;
    let w: int = 1463454570500538int;
    square_times(c, 20144150290nat, n, v, w);
    let v: int = w;
    let w: int = 1504549373680653int;
    square(c, 40288300581nat, n, v, w);
    let v: int = w;
    let w: int = 1666035062387111int;
    square(c, 80576601162nat, n, v, w);
    let v: int = w;
    let w: int = 585835722703625int;
    square_times(c, 161153202324nat, n, v, w);
    let v: int = w;
    let w: int = 951131594771470int;
    square_times(c, 322306404649nat, n, v, w);
    let v: int = w;
    let w: int = 1670143628958792int;
    square_times(c, 644612809299nat, n, v, w);
    let v: int = w;
    let w: int = 122502676378192int;
    square(c, 1289225618599nat, n, v, w);
    let v: int = w;
    let w: int = 1;
    square_times(c, 2578451237198nat, n, v, w);
    let v: int = w;
}

proof fn prime_q2()
    ensures
        is_prime(1670836401704629int),
{
    prime_c();
    q2_power_0();
    assert((11046204280772int - 1) * 735766788910399int % 1670836401704629int == 1);
    lemma_certificate(1670836401704629int, 11046204280772int, 5156902474397int, 735766788910399int);
}

proof fn modulus_power_a_0()
    ensures
        pow(4067217240286848671452265983065331897323918408910809300406102239489012348584int, 1670836401704629nat) % 21888242871839275222246405745257275088548364400416034343698204186575808495617int == 18810536960267738281623319138564098156538132287104634306360290224932305588168int,
{
    let (n, c): (int, int) = (21888242871839275222246405745257275088548364400416034343698204186575808495617int, 4067217240286848671452265983065331897323918408910809300406102239489012348584int);
    lemma_pow1(c);
    let v: int = 4067217240286848671452265983065331897323918408910809300406102239489012348584int;
    let w: int = 6386128151552337324797274583854449461328952692055052099188299042347749289856int;
    square(c, 1, n, v, w);
    let v: int = w;
    let w: int = 13238749333881657106705305701460976550231994495162614680963707438086684607956int;
    square_times(c, 2, n, v, w);
    let v: int = w;
    let w: int = 18235214667583589543951801634235952074735239039809855166216398886623174770170int;
    square_times(c, 5, n, v, w);
    let v: int = w;
    let w: int = 5721131295557846781104367113352519192469116605711557781285702042069833871793int;
    square_times(c, 11, n, v, w);
    let v: int = w;
    let w: int = 12810263647494063624899643005593105044648157316317501937529150065277159817662int;
    square_times(c, 23, n, v, w);
    let v: int = w;
    let w: int = 15521610032794111276804907384116859780422607459397412237403815305009698800648int;
    square(c, 47, n, v, w);
    let v: int = w;
    let w: int = 20249946399921792289729088424322791431150985492773860345737646188678972519942int;
    square_times(c, 94, n, v, w);
    let v: int = w;
    let w: int = 2325033620393259197726907208139781713137842775629757278593502222859102667422int;
    square_times(c, 189, n, v, w);
    let v: int = w;
    let w: int = 2052119478645401982669655604481129688026327006196986550614253311576832213479int;
    square_times(c, 379, n, v, w);
    let v: int = w;
    let w: int = 5305523791343338888340056854512443001811805487901587631041101707290939404956int;
    square_times(c, 759, n, v, w);
    let v: int = w;
    let w: int = 7735245295831313213036549589517340446169467307398702275906908461849736090975int;
    square_times(c, 1519, n, v, w);
    let v: int = w;
    let w: int = 13735901650901636859524824971859910367121242378529385750786171991516679521694int;
    square(c, 3039, n, v, w);
    let v: int = w;
    let w: int = 14591299263583869058937788839531601423586197208846154139957573506839701511840int;
    square(c, 6078, n, v, w);
    let v: int = w;
    let w: int = 9518441876853481861736351359352991275527267624348828572263517916303564912401int;
    square_times(c, 12156, n, v, w);
    let v: int = w;
    let w: int = 9325841753298288981327243965167196678152097785136296273988568482195482840064int;
    square_times(c, 24313, n, v, w);
    let v: int = w;
    let w: int = 6707506584316207971952693228392950314584709399326875711445791268897704110998int;
    square_times(c, 48627, n, v, w);
    let v: int = w;
    let w: int = 3495823615951955709076375045691282919196805517726921210770951285651493961704int;
    square(c, 97255, n, v, w);
    let v: int = w;
    let w: int = 17875055090506025240356370126492227312793770017793380228434757736587311268860int;
    square_times(c, 194510, n, v, w);
    let v: int = w;
    let w: int = 11701486533829588687374114121175543927091329153289072077623892470291851896593int;
    square_times(c, 389021, n, v, w);
    let v: int = w;
    let w: int = 7606880730808735089449470056962104616761148653896049807680072281808978620232int;
    square_times(c, 778043, n, v, w);
    let v: int = w;
    let w: int = 7694521371516738082169058418996934346672614130827311342067208072937893629701int;
    square_times(c, 1556087, n, v, w);
    let v: int = w;
    let w: int = 8679339286862363761504163591784019976629085217846334212063598421905203773607int;
    square(c, 3112175, n, v, w);
    let v: int = w;
    let w: int = 403207217671821601991585014264709338448349712570319674836587866291851246368int;
    square_times(c, 6224350, n, v, w);
    let v: int = w;
    let w: int = 20044427735584441310161981030940585478683319332165119004897426775409179126663int;
    square(c, 12448701, n, v, w);
    let v: int = w;
    let w: int = 8232648074631320254692952416522314971505800744418523364714398676793187570305int;
    square_times(c, 24897402, n, v, w);
    let v: int = w;
    let w: int = 8629976415322310111913236549513323322989871275047921905490991820742268879913int;
    square(c, 49794805, n, v, w);
    let v: int = w;
    let w: int = 17980366041083543859030201235106264289727395210669349329180701586110605329295int;
    square(c, 99589610, n, v, w);
    let v: int = w;
    let w: int = 11007829547199563644351345885759890439753192393307999906038004399823998109294int;
    square(c, 199179220, n, v, w);
    let v: int = w;
    let w: int = 11284752815286972314426066890838572785018453659598163493074748069494488677795int;
    square_times(c, 398358440, n, v, w);
    let v: int = w;
    let w: int = 13768756505859399311183560326960825250207199533332247115294768620812113250806int;
    square_times(c, 796716881, n, v, w);
    let v: int = w;
    let w: int = 8125547412493835302655544292277789516896418318486148577548235680118494358722int;
    square(c, 1593433763, n, v, w);
    let v: int = w;
    let w: int = 15210807959392480672518527411770725120669757686839245514064083362806434615262int;
    square(c, 3186867526nat, n, v, w);
    let v: int = w;
    let w: int = 14825074532863450486668029090056492409643860963120200518293230527073365407714int;
    square_times(c, 6373735052nat, n, v, w);
    let v: int = w;
    let w: int = 11420482190816822151268568602146673094208033372034080010015365028613068075075int;
    square_times(c, 12747470105nat, n, v, w);
    let v: int = w;
    let w: int = 18496881770047501294629587441966510646180871093725103134111316461724589140683int;
    square_times(c, 25494940211nat, n, v, w);
    let v: int = w;
    let w: int = 2237019093751528618639042543825848412579754333004986349879865178964098782587int;
    square(c, 50989880423nat, n, v, w);
    let v: int = w;
    let w: int = 2839246551341045319822335734886485110012180583085267305826728535661394171274int;
    square(c, 101979760846nat, n, v, w);
    let v: int = w;
    let w: int = 1464631871477221700669242018938431796734818078948907931300166732432337750916int;
    square(c, 203959521692nat, n, v, w);
    let v: int = w;
    let w: int = 18920848220534954905595119256738582298605953670928872428456745297996714078343int;
    square_times(c, 407919043384nat, n, v, w);
    let v: int = w;
    let w: int = 21756547853927553624072612132636775815183179770725354197889403544432143667480int;
    square_times(c, 815838086769nat, n, v, w);
    let v: int = w;
    let w: int = 2436812365305135424519761496306639812067470956283251179144515159907233415200int;
    square_times(c, 1631676173539nat, n, v, w);
    let v: int = w;
    let w: int = 17392445159704734836218738035517339578644351879633222452304609351608971145196int;
    square(c, 3263352347079nat, n, v, w);
    let v: int = w;
    let w: int = 16809520541655059698717496467317138193309130170423808132850043317267846989585int;
    square_times(c, 6526704694158nat, n, v, w);
    let v: int = w;
    let w: int = 18639383403526593858239452369786134210325304972954169196132663352242470919596int;
    square(c, 13053409388317nat, n, v, w);
    let v: int = w;
    let w: int = 6607092569004807327634331535360706118346002349871874807749907684968254020795int;
    square_times(c, 26106818776634nat, n, v, w);
    let v: int = w;
    let w: int = 4035495348016154172729634820634689062113386583787331187457720384514718685134int;
    square_times(c, 52213637553269nat, n, v, w);
    let v: int = w;
    let w: int = 14954475219514960091269161237518034207584947452958956300721962104565458578924int;
    square(c, 104427275106539nat, n, v, w);
    let v: int = w;
    let w: int = 15165691769186097806534371376426457177378415567585007363103853162798591647034int;
    square_times(c, 208854550213078nat, n, v, w);
    let v: int = w;
    let w: int = 8235707837921382704627731919954360325250346368193738132666408310195823247149int;
    square(c, 417709100426157nat, n, v, w);
    let v: int = w;
    let w: int = 18810536960267738281623319138564098156538132287104634306360290224932305588168int;
    square_times(c, 835418200852314nat, n, v, w);
    let v: int = w;
}

proof fn modulus_power_b_0()
    ensures
        pow(4067217240286848671452265983065331897323918408910809300406102239489012348584int, 1608669342728964852nat) % 21888242871839275222246405745257275088548364400416034343698204186575808495617int == 5622234682029930222013353172987696945412828110536454300652095428619831202102int,
{
    let (n, c): (int, int) = (21888242871839275222246405745257275088548364400416034343698204186575808495617int, 4067217240286848671452265983065331897323918408910809300406102239489012348584int);
    lemma_pow1(c);
    let v: int = 4067217240286848671452265983065331897323918408910809300406102239489012348584int;
    let w: int = 6386128151552337324797274583854449461328952692055052099188299042347749289856int;
    square(c, 1, n, v, w);
    let v: int = w;
    let w: int = 13238749333881657106705305701460976550231994495162614680963707438086684607956int;
    square_times(c, 2, n, v, w);
    let v: int = w;
    let w: int = 18235214667583589543951801634235952074735239039809855166216398886623174770170int;
    square_times(c, 5, n, v, w);
    let v: int = w;
    let w: int = 1288997372873894118674429447566628158949100853897385711408161458452740640627int;
    square(c, 11, n, v, w);
    let v: int = w;
    let w: int = 15690779842328926225178139205895459096464320036664936154393060137259290834393int;
    square(c, 22, n, v, w);
    let v: int = w;
    let w: int = 13173298813643711737179302085214610697279240735107614677224675207364830978182int;
    square_times(c, 44, n, v, w);
    let v: int = w;
    let w: int = 322279440271549901376250450420437350979799894640243819907063974485294944136int;
    square(c, 89, n, v, w);
    let v: int = w;
    let w: int = 2245064824354248286679342940486692975493608882238035819151494060537236815295int;
    square_times(c, 178, n, v, w);
    let v: int = w;
    let w: int = 8331070091348222178773989349913912596977031367117088757543672891609074423287int;
    square(c, 357, n, v, w);
    let v: int = w;
    let w: int = 12667046771045494802178413368679114212491105066976080789176656999746571351203int;
    square(c, 714, n, v, w);
    let v: int = w;
    let w: int = 15827951676866950978480705088063065647227592502537696711884223207658011461825int;
    square_times(c, 1428, n, v, w);
    let v: int = w;
    let w: int = 4129378618719945238528942755173379432660584193305857177386644435705518597878int;
    square_times(c, 2857, n, v, w);
    let v: int = w;
    let w: int = 10458104519330016722831481621403436636955250855373893914012587466407818324273int;
    square(c, 5715, n, v, w);
    let v: int = w;
    let w: int = 11769321296240754857159015325324246551457538439433399936088370602366527173957int;
    square(c, 11430, n, v, w);
    let v: int = w;
    let w: int = 16756864658871320450095273195180880641604926711322431787730799836997373410354int;
    square_times(c, 22860, n, v, w);
    let v: int = w;
    let w: int = 6943614995187790184461278975748870673550572024828415223526584612224810856355int;
    square(c, 45721, n, v, w);
    let v: int = w;
    let w: int = 8991047338903701344465700219764455985598459812798333318036451612940826546584int;
    square(c, 91442, n, v, w);
    let v: int = w;
    let w: int = 17255749339708772468702835095330842957291988632782577699678909486920154606123int;
    square_times(c, 182884, n, v, w);
    let v: int = w;
    let w: int = 12883796233184062843736358331100949234592082913561501216067886227392315875192int;
    square(c, 365769, n, v, w);
    let v: int = w;
    let w: int = 9770850255500642612015481770119071864395119245686384862019573412074575455946int;
    square(c, 731538, n, v, w);
    let v: int = w;
    let w: int = 12095636939347330833732765030336417394965874111430562556378896893108398454119int;
    square(c, 1463076, n, v, w);
    let v: int = w;
    let w: int = 9507605597525390686538863425556769346087544750265253773189062091554424285870int;
    square(c, 2926152, n, v, w);
    let v: int = w;
    let w: int = 17932252103664813779789761201706523010451593166390460567050985375098762470480int;
    square_times(c, 5852304, n, v, w);
    let v: int = w;
    let w: int = 12309853391631169412178147450549824040430213212920648749297835878884690312497int;
    square_times(c, 11704609, n, v, w);
    let v: int = w;
    let w: int = 6397909464072761120344264436936460029626824980159215597280672028817779616915int;
    square_times(c, 23409219, n, v, w);
    let v: int = w;
    let w: int = 3219671312949103112293517916515892400845711183894622300969600016031624148330int;
    square_times(c, 46818439, n, v, w);
    let v: int = w;
    let w: int = 6985301711244392811534689828185490242462090338917601161141202278988258793136int;
    square_times(c, 93636879, n, v, w);
    let v: int = w;
    let w: int = 15477340730401846645086238635474869418539835280761178378124023793220802160916int;
    square(c, 187273759, n, v, w);
    let v: int = w;
    let w: int = 10313897862990299760702963901803177025774364084358126394163006552579881462819int;
    square(c, 374547518, n, v, w);
    let v: int = w;
    let w: int = 17589055784178759111070885171527556640522402248488547059058602451317034487787int;
    square_times(c, 749095036, n, v, w);
    let v: int = w;
    let w: int = 15163491663097307426775935029443471516423968862012532239894848497372879771217int;
    square_times(c, 1498190073, n, v, w);
    let v: int = w;
    let w: int = 8774308505907646167718963882772335573991679543987945496359139924536809344630int;
    square_times(c, 2996380147nat, n, v, w);
    let v: int = w;
    let w: int = 4360106451514481464721713496424723400798790380683325742569740933810930518178int;
    square_times(c, 5992760295nat, n, v, w);
    let v: int = w;
    let w: int = 16275990781278437665973487256671914822435420161255505334169214138706511784308int;
    square_times(c, 11985520591nat, n, v, w);
    let v: int = w;
    let w: int = 12908843361958514409970798626683577113045421806131553996538402805853312669057int;
    square_times(c, 23971041183nat, n, v, w);
    let v: int = w;
    let w: int = 15850970691890243089482215803048181198926331942782704813483344156263675016861int;
    square(c, 47942082367nat, n, v, w);
    let v: int = w;
    let w: int = 5942717412744519372674371151679237225322652170292377397675585158938566471780int;
    square(c, 95884164734nat, n, v, w);
    let v: int = w;
    let w: int = 8255683465666442761579655988386288657752929912244757012881944873905729439666int;
    square_times(c, 191768329468nat, n, v, w);
    let v: int = w;
    let w: int = 8933294398425247314210147661629234955545203082959819655240752488267388538944int;
    square_times(c, 383536658937nat, n, v, w);
    let v: int = w;
    let w: int = 20589560274980379214084547539109098494065169183095438179620761793679251393232int;
    square(c, 767073317875nat, n, v, w);
    let v: int = w;
    let w: int = 8418233930617165357431503676748888633218726706654762616692112999670484591013int;
    square_times(c, 1534146635750nat, n, v, w);
    let v: int = w;
    let w: int = 4566702606335355684617681975246617155269938832967097132898735221559711173008int;
    square(c, 3068293271501nat, n, v, w);
    let v: int = w;
    let w: int = 9632572101324037071725150039192784219590497799446190285410544024774523080908int;
    square_times(c, 6136586543002nat, n, v, w);
    let v: int = w;
    let w: int = 17035566344259445387961708867887004296684509652717054829010794272049281788674int;
    square_times(c, 12273173086005nat, n, v, w);
    let v: int = w;
    let w: int = 9433521811091422581917263520702365715911069060317711582080456248494772571446int;
    square_times(c, 24546346172011nat, n, v, w);
    let v: int = w;
    let w: int = 13287746691144869625755073493729930970517240241830886362964485388273762127681int;
    square_times(c, 49092692344023nat, n, v, w);
    let v: int = w;
    let w: int = 4750830227225810007906518413343663643318915987128822730455329789502939495942int;
    square(c, 98185384688047nat, n, v, w);
    let v: int = w;
    let w: int = 13035012408524470688048890970779970865574813919356132780678283705956544177429int;
    square(c, 196370769376094nat, n, v, w);
    let v: int = w;
    let w: int = 15822093576658666881427783006931272225564788928357168789168489701542569875099int;
    square_times(c, 392741538752188nat, n, v, w);
    let v: int = w;
    let w: int = 3719599298707220935519581306666305268106104332808068259719769041556434773545int;
    square(c, 785483077504377nat, n, v, w);
    let v: int = w;
    let w: int = 16488772292108595495196916561729099074282002522665119535106490879714874084163int;
    square_times(c, 1570966155008754nat, n, v, w);
    let v: int = w;
    let w: int = 13603827057977326222825039562786194027668125986724652168226315764695294052828int;
    square(c, 3141932310017509nat, n, v, w);
    let v: int = w;
    let w: int = 1315841031531098173455288590474915687435097755906924751602998016417667498287int;
    square_times(c, 6283864620035018nat, n, v, w);
    let v: int = w;
    let w: int = 15005189500114784470962934044622831401421069766145204589765605152476845736280int;
    square_times(c, 12567729240070037nat, n, v, w);
    let v: int = w;
    let w: int = 19203033309775340860165864868710163867300644892515281368802815574887290727192int;
    square_times(c, 25135458480140075nat, n, v, w);
    let v: int = w;
    let w: int = 19230770693470763340047203724271439005045606495543459833317496287168551806242int;
    square_times(c, 50270916960280151nat, n, v, w);
    let v: int = w;
    let w: int = 2553140948483930812412285981849370959439675767789630126167664254901483265300int;
    square(c, 100541833920560303nat, n, v, w);
    let v: int = w;
    let w: int = 15321002091107413318387067756832217181635022620875600912656324139269427047772int;
    square_times(c, 201083667841120606nat, n, v, w);
    let v: int = w;
    let w: int = 3735539871592816921233875031721838089614317682464056078135447190026190839187int;
    square(c, 402167335682241213nat, n, v, w);
    let v: int = w;
    let w: int = 5622234682029930222013353172987696945412828110536454300652095428619831202102int;
    square(c, 804334671364482426nat, n, v, w);
    let v: int = w;
}

proof fn modulus_power_b_1()
    requires
        pow(4067217240286848671452265983065331897323918408910809300406102239489012348584int, 1608669342728964852nat) % 21888242871839275222246405745257275088548364400416034343698204186575808495617int == 5622234682029930222013353172987696945412828110536454300652095428619831202102int,
    ensures
        pow(4067217240286848671452265983065331897323918408910809300406102239489012348584int, 13818364434197438864469338081nat) % 21888242871839275222246405745257275088548364400416034343698204186575808495617int == 15379204794002667769298530452756604474647348591674452342013272253614090326003int,
{
    let (n, c): (int, int) = (21888242871839275222246405745257275088548364400416034343698204186575808495617int, 4067217240286848671452265983065331897323918408910809300406102239489012348584int);
    let v: int = 5622234682029930222013353172987696945412828110536454300652095428619831202102int;
    let w: int = 18844765288437987799138213223672211085117726746507232125190001470484912400462int;
    square(c, 1608669342728964852nat, n, v, w);
    let v: int = w;
    let w: int = 7523718886118463129846387865457920449501969533277957321152108701234010709627int;
    square(c, 3217338685457929704nat, n, v, w);
    let v: int = w;
    let w: int = 8448855219633365442930076917076713833781771384361585343893523329149156935516int;
    square_times(c, 6434677370915859408nat, n, v, w);
    let v: int = w;
    let w: int = 2485468583532904484309971878075628398701936183570298080274931589456331496581int;
    square_times(c, 12869354741831718817nat, n, v, w);
    let v: int = w;
    let w: int = 1763832830497479334436111597000920668523750036536595945067692152000206613291int;
    square_times(c, 25738709483663437635nat, n, v, w);
    let v: int = w;
    let w: int = 4754162372059473949949476388979884147853939201566546687556588625308015404386int;
    square(c, 51477418967326875271nat, n, v, w);
    let v: int = w;
    let w: int = 20695525597621049728423917252705535360718712876837599263275890881026111584040int;
    square(c, 102954837934653750542nat, n, v, w);
    let v: int = w;
    let w: int = 8619588954376863221941865514652255422133586179693120934634395982893756521661int;
    square_times(c, 205909675869307501084nat, n, v, w);
    let v: int = w;
    let w: int = 10639978108994546607145882244949613283667110026118833070157686786853029213187int;
    square(c, 411819351738615002169nat, n, v, w);
    let v: int = w;
    let w: int = 13627864570041653680197465217859677761735974344822760502413668374746291405744int;
    square_times(c, 823638703477230004338nat, n, v, w);
    let v: int = w;
    let w: int = 1478584894689212060068135389439125610477393433539067448973187960356152469803int;
    square(c, 1647277406954460008677nat, n, v, w);
    let v: int = w;
    let w: int = 12515350210104563293978980042340580153099941256207686398934436282461959491345int;
    square(c, 3294554813908920017354nat, n, v, w);
    let v: int = w;
    let w: int = 6519667857248721620883404089629190453555380526572180117778616129766941648535int;
    square_times(c, 6589109627817840034708nat, n, v, w);
    let v: int = w;
    let w: int = 16823438310195457458335840215215656924725445978201061907958243556984777076296int;
    square(c, 13178219255635680069417nat, n, v, w);
    let v: int = w;
    let w: int = 4886056033106486036989241819198674686430448265622916628618894665609786197276int;
    square_times(c, 26356438511271360138834nat, n, v, w);
    let v: int = w;
    let w: int = 10822208400466322192593064883454053686531874372810959438678408134393112980376int;
    square(c, 52712877022542720277669nat, n, v, w);
    let v: int = w;
    let w: int = 6240833133448105338207581245949004484552400747577623356912084461759335556916int;
    square_times(c, 105425754045085440555338nat, n, v, w);
    let v: int = w;
    let w: int = 991543666436373524661697283520663894700297870464559561035400420715937077869int;
    square(c, 210851508090170881110677nat, n, v, w);
    let v: int = w;
    let w: int = 13752811589034656140198374221163509499005731150836489101685730465413837061152int;
    square(c, 421703016180341762221354nat, n, v, w);
    let v: int = w;
    let w: int = 352558901267652380186996644674176934081529659241928266274750804435919316555int;
    square_times(c, 843406032360683524442708nat, n, v, w);
    let v: int = w;
    let w: int = 9975287918602860911580010553136500836149672040675543073036316873641214829324int;
    square(c, 1686812064721367048885417nat, n, v, w);
    let v: int = w;
    let w: int = 19639817482156684147517007369548089218135951793141269477014961025414798861115int;
    square(c, 3373624129442734097770834nat, n, v, w);
    let v: int = w;
    let w: int = 17139637903830095634697455424442797323363989037643635193072045733059952354744int;
    square_times(c, 6747248258885468195541668nat, n, v, w);
    let v: int = w;
    let w: int = 914217616237613439280475637734921588667706267016512353212528249498655370278int;
    square_times(c, 13494496517770936391083337nat, n, v, w);
    let v: int = w;
    let w: int = 5734933231541450750267406738314736704308586995611790329229868807038284262457int;
    square_times(c, 26988993035541872782166675nat, n, v, w);
    let v: int = w;
    let w: int = 1625336039193904959347094447000372437051439332362963296612616483220024776204int;
    square_times(c, 53977986071083745564333351nat, n, v, w);
    let v: int = w;
    let w: int = 15263095476177339472893572712441658830053824967875597941275658689623180726528int;
    square_times(c, 107955972142167491128666703nat, n, v, w);
    let v: int = w;
    let w: int = 7542659160410816238180733372451276273740009883376419805240252310437459932401int;
    square_times(c, 215911944284334982257333407nat, n, v, w);
    let v: int = w;
    let w: int = 10843790727256262470749371154007731033265095714211366053529959999110654158998int;
    square(c, 431823888568669964514666815nat, n, v, w);
    let v: int = w;
    let w: int = 10632113430971557868806697034540995537436250121514722732420480920928142450155int;
    square(c, 863647777137339929029333630nat, n, v, w);
    let v: int = w;
    let w: int = 3719498549793441748256527655810202249197363423147539062687900885823491432443int;
    square(c, 1727295554274679858058667260nat, n, v, w);
    let v: int = w;
    let w: int = 10600766886418851235272489342044404584634817502004706251536578012124037294019int;
    square(c, 3454591108549359716117334520nat, n, v, w);
    let v: int = w;
    let w: int = 15379204794002667769298530452756604474647348591674452342013272253614090326003int;
    square_times(c, 6909182217098719432234669040nat, n, v, w);
    let v: int = w;
}

proof fn modulus_power_ab_0()
    ensures
        pow(15379204794002667769298530452756604474647348591674452342013272253614090326003int, 1670836401704629nat) % 21888242871839275222246405745257275088548364400416034343698204186575808495617int == 1,
{
    let (n, c): (int, int) = (21888242871839275222246405745257275088548364400416034343698204186575808495617int, 15379204794002667769298530452756604474647348591674452342013272253614090326003int);
    lemma_pow1(c);
    let v: int = 15379204794002667769298530452756604474647348591674452342013272253614090326003int;
    let w: int = 19360659035887236148133016038200428628513110106055523380242472506706136249408int;
    square(c, 1, n, v, w);
    let v: int = w;
    let w: int = 4260654729730660216535389619375238216553402430020728752504375226320501554837int;
    square_times(c, 2, n, v, w);
    let v: int = w;
    let w: int = 13750187841809496137775006957785154012924509222254573750553502331611566652728int;
    square_times(c, 5, n, v, w);
    let v: int = w;
    let w: int = 8111122955935412117111579644565783043712978760286990757402222737224109010412int;
    square_times(c, 11, n, v, w);
    let v: int = w;
    let w: int = 21472300116018326845335282028614456020875717339509094427352122036007077646396int;
    square_times(c, 23, n, v, w);
    let v: int = w;
    let w: int = 3228530317528596532115753829283615338476883891407954109386818801729966713050int;
    square(c, 47, n, v, w);
    let v: int = w;
    let w: int = 1614218765963207036470521936549012739477947807905165226916966686105113399296int;
    square_times(c, 94, n, v, w);
    let v: int = w;
    let w: int = 15156778539796329802722585791294361698338516370070287909631127535147969819908int;
    square_times(c, 189, n, v, w);
    let v: int = w;
    let w: int = 9604642766458281050354848302236279731014020914870701755944707977193316408641int;
    square_times(c, 379, n, v, w);
    let v: int = w;
    let w: int = 15444520202297557232880096412305440400925607232651555968356803917557952013706int;
    square_times(c, 759, n, v, w);
    let v: int = w;
    let w: int = 13881795938341018967138717919926544656600048896830667798904099002631114053469int;
    square_times(c, 1519, n, v, w);
    let v: int = w;
    let w: int = 4274482819020790875035035361287095172451999316111037336765933740034542785230int;
    square(c, 3039, n, v, w);
    let v: int = w;
    let w: int = 5239253682821261453313533686008503529920715924476802501680898192313931618776int;
    square(c, 6078, n, v, w);
    let v: int = w;
    let w: int = 12997965327827198381662574256267640193201185907944930759570858280593083517658int;
    square_times(c, 12156, n, v, w);
    let v: int = w;
    let w: int = 21064593875770928518069729970560030130232318591963303905799254791559363863296int;
    square_times(c, 24313, n, v, w);
    let v: int = w;
    let w: int = 10527709627322457405580604022728976958362813614670153644908256499092458118612int;
    square_times(c, 48627, n, v, w);
    let v: int = w;
    let w: int = 11404451597857003216866347181045884589807957502936515805532672520067819238060int;
    square(c, 97255, n, v, w);
    let v: int = w;
    let w: int = 3053501093978968543287168992464908609308717022560862197316863005964349942694int;
    square_times(c, 194510, n, v, w);
    let v: int = w;
    let w: int = 10215525461884523280708229076589469726564123048568713099541730516517684813636int;
    square_times(c, 389021, n, v, w);
    let v: int = w;
    let w: int = 14135494865484631370567301019739146590900285554420238215294990764042368130988int;
    square_times(c, 778043, n, v, w);
    let v: int = w;
    let w: int = 10487703603611266235193069438232953247840241834238775838731835623258830600821int;
    square_times(c, 1556087, n, v, w);
    let v: int = w;
    let w: int = 14697913870320701908178088657548268116533272751121407663067227238882460087513int;
    square(c, 3112175, n, v, w);
    let v: int = w;
    let w: int = 6948100676146386039149113223425662747897137949792417632167258843967192764098int;
    square_times(c, 6224350, n, v, w);
    let v: int = w;
    let w: int = 3125730006319034453649830634266919891590496763931676957250894347734181937463int;
    square(c, 12448701, n, v, w);
    let v: int = w;
    let w: int = 6388316224400855601384281159447153935304118304905223982875606562309607819862int;
    square_times(c, 24897402, n, v, w);
    let v: int = w;
    let w: int = 2955512403943696847423123723236622717040173816240042112877337728667321167804int;
    square(c, 49794805, n, v, w);
    let v: int = w;
    let w: int = 7967935913187470095536967780403543290109103153440294730489752757248660192770int;
    square(c, 99589610, n, v, w);
    let v: int = w;
    let w: int = 12196221520890133461645702619129631970130838313699473339026252132692578792441int;
    square(c, 199179220, n, v, w);
    let v: int = w;
    let w: int = 9930058692639698792104458941944738337269014746045694762676491911503547334578int;
    square_times(c, 398358440, n, v, w);
    let v: int = w;
    let w: int = 2424727628898210220023312369396108577648812531441836735654182370684160382025int;
    square_times(c, 796716881, n, v, w);
    let v: int = w;
    let w: int = 8718862624924841751011151243041743735171784265322752006999002190000087161548int;
    square(c, 1593433763, n, v, w);
    let v: int = w;
    let w: int = 4965512243072694828365954530443331358504003032608872494962835660450349398558int;
    square(c, 3186867526nat, n, v, w);
    let v: int = w;
    let w: int = 412462898443065221604625693269937890929487784888994253613148463090268661182int;
    square_times(c, 6373735052nat, n, v, w);
    let v: int = w;
    let w: int = 1283961948877319834595797847421587932900082439994332288281233496288834814677int;
    square_times(c, 12747470105nat, n, v, w);
    let v: int = w;
    let w: int = 13719906702901597756437938005109189994004770796409351440798058688623634816152int;
    square_times(c, 25494940211nat, n, v, w);
    let v: int = w;
    let w: int = 4905882647038381981447128759243168275532287172917613505487400556701244449600int;
    square(c, 50989880423nat, n, v, w);
    let v: int = w;
    let w: int = 2061253006374471442225825952950981896845046752213511838679543049328940285int;
    square(c, 101979760846nat, n, v, w);
    let v: int = w;
    let w: int = 13238021060017281061049341521316163530322714476552492959801227200555855190750int;
    square(c, 203959521692nat, n, v, w);
    let v: int = w;
    let w: int = 7085062979747496777101588552843721304041561828287163753410974161109510541366int;
    square_times(c, 407919043384nat, n, v, w);
    let v: int = w;
    let w: int = 16584775796084674375929929084844307336564903933054929741905867898669397005861int;
    square_times(c, 815838086769nat, n, v, w);
    let v: int = w;
    let w: int = 18145668383780846474944130862023383347068386591956559321781922065715157803291int;
    square_times(c, 1631676173539nat, n, v, w);
    let v: int = w;
    let w: int = 9131265340931556458562057635742570076237163207900597002893029626728645091008int;
    square(c, 3263352347079nat, n, v, w);
    let v: int = w;
    let w: int = 16306261791877365048750374745454429390598553919374379949511598173302159653727int;
    square_times(c, 6526704694158nat, n, v, w);
    let v: int = w;
    let w: int = 20363683192876218771463646159058720771298837090394022683587821155698775362351int;
    square(c, 13053409388317nat, n, v, w);
    let v: int = w;
    let w: int = 12197654279910196199066449517068888282611058134752828332958638334186260084943int;
    square_times(c, 26106818776634nat, n, v, w);
    let v: int = w;
    let w: int = 536273062225463174020747041170579101968810656245233552079387940789386982850int;
    square_times(c, 52213637553269nat, n, v, w);
    let v: int = w;
    let w: int = 8961255157403180602468744555589811942791582104418643046409585852780991602655int;
    square(c, 104427275106539nat, n, v, w);
    let v: int = w;
    let w: int = 17762540238320408498092545748224242674064399574780357781353611157874558983846int;
    square_times(c, 208854550213078nat, n, v, w);
    let v: int = w;
    let w: int = 19384841766302110249878603245450463629997196100431823615736497314657958578220int;
    square(c, 417709100426157nat, n, v, w);
    let v: int = w;
    let w: int = 1;
    square_times(c, 835418200852314nat, n, v, w);
    let v: int = w;
}

proof fn prime_modulus()
    ensures
        is_prime(21888242871839275222246405745257275088548364400416034343698204186575808495617int),
{
    prime_q2();
    prime_q1();
    modulus_power_a_0();
    modulus_power_b_0();
    modulus_power_b_1();
    modulus_power_ab_0();
    lemma_pair_power(4067217240286848671452265983065331897323918408910809300406102239489012348584int, 1670836401704629int, 13818364434197438864469338081int, 21888242871839275222246405745257275088548364400416034343698204186575808495617int, 18810536960267738281623319138564098156538132287104634306360290224932305588168int, 15379204794002667769298530452756604474647348591674452342013272253614090326003int, 86052601511993865195709936845511121156384965108811623497653747272590813794int, 18830771696733986827343121108258373716716634563029220880262390084180817631389int);
    lemma_certificate_pair(21888242871839275222246405745257275088548364400416034343698204186575808495617int, 4067217240286848671452265983065331897323918408910809300406102239489012348584int, 1670836401704629int, 13818364434197438864469338081int, 86052601511993865195709936845511121156384965108811623497653747272590813794int, 18830771696733986827343121108258373716716634563029220880262390084180817631389int);
}

/// The order of the field is prime.
pub proof fn lemma_modulus_prime()
    ensures
        is_prime(modulus()),
{
    prime_modulus();
}

} // verus!
