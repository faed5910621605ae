//! One round of the permutation on field elements.
use vstd::prelude::*;

use crate::chips::poseidon_boundary::hash::{fifth_power, PoseidonParameters};
use crate::chips::poseidon_boundary::identity::values_of;
use crate::field::{lemma_add_mod, lemma_fr_range, lemma_mul_mod, modulus, Fr};

verus! {

/// The parameters have the sizes of a state of three elements.
pub open spec fn width_three(p: PoseidonParameters) -> bool {
    &&& p.full_rounds == 8
    &&& p.partial_rounds == 57
    &&& p.ark@.len() == 195
    &&& p.mds@.len() == 3
    &&& forall|i: int| 0 <= i < 3 ==> (#[trigger] p.mds@[i])@.len() == 3
}

fn fifth_power_native(x: &Fr) -> (r: Fr)
    ensures
        r@ == fifth_power(x@) % modulus(),
{
    let x2 = x.times(x);
    let x4 = x2.times(&x2);
    proof {
        let v = x@;
        lemma_mul_mod(v * v, v * v);
        lemma_mul_mod(v * v * (v * v), v);
        lemma_fr_range(*x);
        assert(v % modulus() == v);
        assert(x4@ == (v * v * (v * v)) % modulus());
        assert(fifth_power(v) == (v * v * (v * v)) * v);
    }
    x4.times(x)
}

/// A state element after the round constant and, where `power` holds, the nonlinear step.
fn boxed_native(x: &Fr, constant: &Fr, power: bool) -> (r: Fr)
    ensures
        r@ == (if power {
            fifth_power(x@ + constant@)
        } else {
            x@ + constant@
        }) % modulus(),
{
    let y = x.plus(constant);
    if power {
        proof {
            lemma_fifth_power(x@ + constant@);
        }
        fifth_power_native(&y)
    } else {
        y
    }
}

/// The fifth power of a residue.
proof fn lemma_fifth_power(v: int)
    ensures
        fifth_power(v % modulus()) % modulus() == fifth_power(v) % modulus(),
{
    let p = modulus();
    let w = v % p;
    lemma_mul_mod(v, v);
    lemma_mul_mod(w, w);
    assert(w % p == w);
    assert((v * v) % p == (w * w) % p);
    lemma_mul_mod(v * v, v * v);
    lemma_mul_mod(w * w, w * w);
    lemma_mul_mod(v * v * (v * v), v);
    lemma_mul_mod(w * w * (w * w), w);
}

/// The sum of three products, of residues and of what they are residues of.
proof fn lemma_mixed(a: int, b: int, c: int, x: int, y: int, z: int)
    ensures
        (((a % modulus()) * x % modulus() + (b % modulus()) * y % modulus()) % modulus() + (c
            % modulus()) * z % modulus()) % modulus() == (a * x + b * y + c * z) % modulus(),
{
    let p = modulus();
    lemma_mul_mod(a, x);
    lemma_mul_mod(a % p, x);
    lemma_mul_mod(b, y);
    lemma_mul_mod(b % p, y);
    lemma_mul_mod(c, z);
    lemma_mul_mod(c % p, z);
    lemma_add_mod(a * x, b * y);
    lemma_add_mod(a * x + b * y, c * z);
}

/// A round of the permutation.
pub(crate) fn round_native(p: &PoseidonParameters, round: usize, state: &[Fr; 3]) -> (r: [Fr; 3])
    requires
        width_three(*p),
        round < 65,
    ensures
        values_of(r@) == p@.round(round as int, values_of(state@)),
{
    let full = round < 4 || round >= 61;
    let b0 = boxed_native(&state[0], &p.ark[3 * round], true);
    let b1 = boxed_native(&state[1], &p.ark[3 * round + 1], full);
    let b2 = boxed_native(&state[2], &p.ark[3 * round + 2], full);
    let r0 = mix_native(&p.mds[0], &b0, &b1, &b2);
    let r1 = mix_native(&p.mds[1], &b0, &b1, &b2);
    let r2 = mix_native(&p.mds[2], &b0, &b1, &b2);
    let r = [r0, r1, r2];
    proof {
        let q = p@;
        let s = values_of(state@);
        let i = round as int;
        assert(q.is_full(i) == full);
        assert(s[0] == state@[0]@ && s[1] == state@[1]@ && s[2] == state@[2]@);
        assert(q.ark[3 * i] == p.ark@[3 * i]@);
        assert(q.ark[3 * i + 1] == p.ark@[3 * i + 1]@);
        assert(q.ark[3 * i + 2] == p.ark@[3 * i + 2]@);
        assert(b0@ == q.boxed(i, s, 0) % modulus());
        assert(b1@ == q.boxed(i, s, 1) % modulus());
        assert(b2@ == q.boxed(i, s, 2) % modulus());
        assert forall|row: int| 0 <= row < 3 implies #[trigger] values_of(r@)[row]
            == q.round(i, s)[row] by {
            let m = q.mds[row];
            assert(m == values_of(p.mds@[row]@));
            lemma_mixed(
                q.boxed(i, s, 0),
                q.boxed(i, s, 1),
                q.boxed(i, s, 2),
                m[0],
                m[1],
                m[2],
            );
        }
        assert(values_of(r@) =~= q.round(i, s));
    }
    r
}

/// A row of the matrix times the state.
fn mix_native(row: &Vec<Fr>, b0: &Fr, b1: &Fr, b2: &Fr) -> (r: Fr)
    requires
        row@.len() == 3,
    ensures
        r@ == ((b0@ * row@[0]@ % modulus() + b1@ * row@[1]@ % modulus()) % modulus() + b2@
            * row@[2]@ % modulus()) % modulus(),
{
    b0.times(&row[0]).plus(&b1.times(&row[1])).plus(&b2.times(&row[2]))
}

} // verus!
