//! The two-input Poseidon hash of the BN254 scalar field, and the commitment to a tensor.
use vstd::prelude::*;

use ark_ff::PrimeField;
use light_poseidon::PoseidonHasher;

use crate::chips::poseidon_boundary::descriptor::{
    Boundary, BoundaryCommitmentError, BoundaryDescriptor,
};
use crate::chips::poseidon_boundary::identity::{identity, identity_fields, values_of};
use crate::chips::reduce::raws;
use crate::field::{modulus, Fr};
use crate::field_convert::i64_to_fr;
use crate::fixed_point::{lemma_i18_range, I18};

verus! {

/// The parameters of a Poseidon permutation, as integers.
#[verifier::ext_equal]
pub struct Permutation {
    /// The round constants, as many for each round as the state is wide.
    pub ark: Seq<int>,
    /// The mixing matrix, row by row.
    pub mds: Seq<Seq<int>>,
    pub full_rounds: int,
    pub partial_rounds: int,
}

/// The parameters of a Poseidon permutation.
pub struct PoseidonParameters {
    pub ark: Vec<Fr>,
    pub mds: Vec<Vec<Fr>>,
    pub full_rounds: usize,
    pub partial_rounds: usize,
}

impl View for PoseidonParameters {
    type V = Permutation;

    open spec fn view(&self) -> Permutation {
        Permutation {
            ark: values_of(self.ark@),
            mds: Seq::new(self.mds@.len(), |i: int| values_of(self.mds@[i]@)),
            full_rounds: self.full_rounds as int,
            partial_rounds: self.partial_rounds as int,
        }
    }
}

/// The parameters for a state of the given width.
pub uninterp spec fn poseidon_parameters(width: int) -> Permutation;

/// `parameters::bn254_x5::get_poseidon_parameters` of `light_poseidon`, for a state of three
/// elements: constants, eight full and 57 partial rounds, three round constants for each round
/// and a matrix of three rows of three. What the constants are is not stated.
#[verifier::external_body]
pub(crate) fn light_poseidon_parameters(width: u8) -> (r: PoseidonParameters)
    requires
        width == 3,
    ensures
        r@ == poseidon_parameters(width as int),
        r.full_rounds == 8,
        r.partial_rounds == 57,
        r.ark@.len() == 195,
        r.mds@.len() == 3,
        forall|i: int| 0 <= i < 3 ==> (#[trigger] r.mds@[i])@.len() == 3,
{
    let p = light_poseidon::parameters::bn254_x5::get_poseidon_parameters::<ark_bn254::Fr>(width)
        .expect("parameters of width three");
    let field = |x: ark_bn254::Fr| Fr::from_limbs(x.into_bigint().0);
    PoseidonParameters {
        ark: p.ark.into_iter().map(field).collect(),
        mds: p.mds.into_iter().map(|row| row.into_iter().map(field).collect()).collect(),
        full_rounds: p.full_rounds,
        partial_rounds: p.partial_rounds,
    }
}

/// The permutation's nonlinear step.
pub open spec fn fifth_power(x: int) -> int {
    x * x * (x * x) * x
}

impl Permutation {
    pub open spec fn is_full(self, round: int) -> bool {
        round < self.full_rounds / 2 || round >= self.full_rounds / 2 + self.partial_rounds
    }

    /// A state element after the round constant and the nonlinear step.
    pub open spec fn boxed(self, round: int, state: Seq<int>, i: int) -> int {
        let x = state[i] + self.ark[3 * round + i];
        if i == 0 || self.is_full(round) {
            fifth_power(x)
        } else {
            x
        }
    }

    /// An element of the mixed state, before reduction.
    pub open spec fn mixed(self, round: int, state: Seq<int>, row: int) -> int {
        self.boxed(round, state, 0) * self.mds[row][0] + self.boxed(round, state, 1)
            * self.mds[row][1] + self.boxed(round, state, 2) * self.mds[row][2]
    }

    /// A round: add the constants, raise to the fifth power, multiply by the matrix.
    pub open spec fn round(self, round: int, state: Seq<int>) -> Seq<int> {
        Seq::new(3, |row: int| self.mixed(round, state, row) % modulus())
    }

    /// The state after the first `n` rounds on two inputs.
    pub open spec fn state(self, left: int, right: int, n: nat) -> Seq<int>
        decreases n,
    {
        if n == 0 {
            seq![0, left, right]
        } else {
            self.round(n - 1, self.state(left, right, (n - 1) as nat))
        }
    }

    pub open spec fn rounds(self) -> nat {
        (self.full_rounds + self.partial_rounds) as nat
    }

    /// The hash of two inputs: the first element of the permuted state.
    pub open spec fn compress(self, left: int, right: int) -> int {
        self.state(left, right, self.rounds())[0]
    }
}

/// The hash of two field elements.
pub open spec fn compress(left: int, right: int) -> int {
    poseidon_parameters(3).compress(left, right)
}

/// `Poseidon::new_circom(2)` and `PoseidonHasher::hash` of `light_poseidon`, on two elements of
/// `ark_bn254::Fr`: the permutation with the parameters of width three, on the state of a zero
/// and the two inputs, whose first element is the hash.
#[verifier::external_body]
fn light_poseidon_hash(left: &Fr, right: &Fr) -> (r: Fr)
    ensures
        r@ == compress(left@, right@),
{
    let left = halo2curves::bn256::Fr::from_raw(left.limbs()).to_bytes();
    let right = halo2curves::bn256::Fr::from_raw(right.limbs()).to_bytes();
    let inputs = [
        ark_bn254::Fr::from_le_bytes_mod_order(&left),
        ark_bn254::Fr::from_le_bytes_mod_order(&right),
    ];
    let mut poseidon = light_poseidon::Poseidon::<ark_bn254::Fr>::new_circom(2).expect("width three");
    Fr::from_limbs(poseidon.hash(&inputs).expect("two inputs").into_bigint().0)
}

/// The hash of two field elements.
pub fn poseidon_compress_native(left: Fr, right: Fr) -> (r: Fr)
    ensures
        r@ == compress(left@, right@),
{
    light_poseidon_hash(&left, &right)
}

/// A state into which values were folded, one after the other.
pub open spec fn absorb(state: int, values: Seq<int>) -> int
    decreases values.len(),
{
    if values.len() == 0 {
        state
    } else {
        compress(absorb(state, values.drop_last()), values.last())
    }
}

/// The state that a commitment starts from.
pub open spec fn commitment_domain() -> int {
    identity("zkie.poseidon-boundary-fold.v1"@)[0]
}

/// The commitment to a tensor: the descriptor's fields, the count of the values and the values,
/// folded into the domain. Values are field elements.
pub open spec fn commitment(boundary: Boundary, values: Seq<int>) -> int {
    absorb(
        commitment_domain(),
        boundary.canonical() + seq![values.len() as int] + values,
    )
}

/// The field elements of signed integers.
pub open spec fn residues(values: Seq<int>) -> Seq<int> {
    Seq::new(values.len(), |i: int| values[i] % modulus())
}

/// One value more is folded.
pub proof fn lemma_absorb_push(state: int, values: Seq<int>, v: int)
    ensures
        absorb(state, values.push(v)) == compress(absorb(state, values), v),
{
    assert(values.push(v).drop_last() =~= values);
}

/// What is folded first and what then.
pub proof fn lemma_absorb_concat(state: int, xs: Seq<int>, ys: Seq<int>)
    ensures
        absorb(state, xs + ys) == absorb(absorb(state, xs), ys),
    decreases ys.len(),
{
    if ys.len() == 0 {
        assert(xs + ys =~= xs);
    } else {
        assert((xs + ys).drop_last() =~= xs + ys.drop_last());
        lemma_absorb_concat(state, xs, ys.drop_last());
    }
}

/// Folds field elements into a state.
fn absorb_native(state: Fr, fields: &Vec<Fr>) -> (r: Fr)
    ensures
        r@ == absorb(state@, values_of(fields@)),
{
    let mut r = state;
    let mut i: usize = 0;
    let ghost values = values_of(fields@);
    assert(values.take(0) =~= Seq::empty());
    while i < fields.len()
        invariant
            i <= fields@.len(),
            values == values_of(fields@),
            r@ == absorb(state@, values.take(i as int)),
        decreases fields@.len() - i,
    {
        proof {
            lemma_absorb_push(state@, values.take(i as int), values[i as int]);
            assert(values.take(i as int).push(values[i as int]) =~= values.take(i + 1));
        }
        r = poseidon_compress_native(r, fields[i]);
        i += 1;
    }
    assert(values.take(i as int) =~= values);
    r
}

/// The commitment to a tensor that a descriptor describes.
pub fn commit_boundary_native(descriptor: &BoundaryDescriptor, values: &Vec<I18>) -> (res: Result<
    Fr,
    BoundaryCommitmentError,
>)
    ensures
        match descriptor@.error() {
            Some(e) => res == Err::<Fr, BoundaryCommitmentError>(e),
            None => if values@.len() != descriptor@.element_count {
                res matches Err(BoundaryCommitmentError::LengthMismatch { expected, actual })
                    && expected == descriptor@.element_count && actual == values@.len()
            } else {
                res matches Ok(c) && c@ == commitment(descriptor@, residues(raws(values@)))
            },
        },
{
    descriptor.validate()?;
    if values.len() != descriptor.element_count() {
        return Err(
            BoundaryCommitmentError::LengthMismatch {
                expected: descriptor.element_count(),
                actual: values.len(),
            },
        );
    }
    let domain = identity_fields("zkie.poseidon-boundary-fold.v1");
    proof {
        assert(values_of(domain@)[0] == domain@[0]@);
    }
    let mut fields = descriptor.canonical_fields();
    let ghost head = values_of(fields@);
    fields.push(Fr::from_u64(values.len() as u64));
    let ghost tail = residues(raws(values@));
    let mut i: usize = 0;
    assert(values_of(fields@) =~= head + seq![values@.len() as int] + tail.take(0));
    while i < values.len()
        invariant
            i <= values@.len(),
            tail == residues(raws(values@)),
            values_of(fields@) == head + seq![values@.len() as int] + tail.take(i as int),
        decreases values@.len() - i,
    {
        let ghost prev = fields@;
        fields.push(i64_to_fr(values[i].raw()));
        proof {
            lemma_i18_range(values@[i as int]);
            assert(tail.take(i + 1) =~= tail.take(i as int).push(tail[i as int]));
            assert(values_of(fields@) =~= values_of(prev).push(tail[i as int]));
            assert(head + seq![values@.len() as int] + tail.take(i + 1) =~= (head + seq![
                values@.len() as int,
            ] + tail.take(i as int)).push(tail[i as int]));
        }
        i += 1;
    }
    assert(tail.take(i as int) =~= tail);
    Ok(absorb_native(domain[0], &fields))
}

} // verus!
