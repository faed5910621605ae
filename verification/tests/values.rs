//! Numbers, field elements, shapes, encodings and hashes.
use zkie_core::chips::div::{div_quotient_remainder, DivError};
use zkie_core::chips::layer_norm::RsqrtDomain;
use zkie_core::chips::poseidon_boundary::identity::identity_fields;
use zkie_core::chips::poseidon_boundary::{
    commit_boundary_native, poseidon_compress_native, strictly_sorted, valid_id,
    BoundaryCommitmentError, BoundaryDescriptor, BoundaryRole, MAX_BOUNDARY_ELEMENTS,
    MAX_BOUNDARY_IDENTITIES, MAX_BOUNDARY_ID_BYTES,
};
use zkie_core::field::Fr;
use zkie_core::field_convert::{i128_to_fr, i64_to_fr, shifted_i64_witness};
use zkie_core::fixed_point::{requantize_mul, requantize_raw, I18, SCALE_18};
use zkie_core::isa::{EltwiseOp, Instruction};
use zkie_core::program_circuit::{
    encode_string, encode_usize, encode_usizes, AssemblerCircuit, RmsNormDomains,
};
use zkie_core::tensor::Tensor;

const ONE: f64 = 1_000_000_000_000_000_000.0;

fn i18(v: f64) -> I18 {
    I18::from_raw((v * ONE).round() as i64)
}

fn as_f64(x: &I18) -> f64 {
    x.raw() as f64 / ONE
}

#[test]
fn crate_compiles() {
    assert_eq!(2 + 2, 4);
}

// ---- Instructions and tensors ----

#[test]
fn eltwise_add_variant_constructs() {
    let instr = Instruction::Eltwise { op: EltwiseOp::Add };
    assert!(matches!(instr, Instruction::Eltwise { op: EltwiseOp::Add }));
}

#[test]
fn dot_general_variant_constructs() {
    let instr = Instruction::DotGeneral {
        m: 4,
        n: 4,
        k: 4,
        batch_dims: vec![],
        trans_a: false,
        trans_b: true,
    };
    assert!(matches!(instr, Instruction::DotGeneral { .. }));
}

#[test]
fn new_accepts_matching_shape_and_data_len() {
    let t = Tensor::new(vec![2, 3], vec![0i64; 6]).unwrap();
    assert_eq!(t.shape, vec![2, 3]);
}

#[test]
fn new_rejects_mismatched_shape_and_data_len() {
    assert!(Tensor::new(vec![2, 3], vec![0i64; 5]).is_err());
}

#[test]
fn a_tensor_without_dimensions_has_one_element() {
    assert!(Tensor::new(vec![], vec![7i64]).is_ok());
    assert!(Tensor::new(vec![], Vec::<i64>::new()).is_err());
    assert!(Tensor::new(vec![2, 0], Vec::<i64>::new()).is_ok());
}

// ---- Fixed point ----

#[test]
fn requantize_mul_positive_times_positive() {
    let (q, r) = requantize_mul(i18(2.0), i18(3.0)).unwrap();
    assert!((as_f64(&q) - 6.0).abs() < 1e-9);
    assert_eq!(r, 0);
}

#[test]
fn requantize_mul_rounds_toward_negative_infinity_with_nonneg_remainder() {
    let (_, r) = requantize_mul(i18(0.1), i18(0.1)).unwrap();
    assert!((0..SCALE_18).contains(&r));
}

#[test]
fn requantize_mul_negative_times_positive_remainder_nonnegative() {
    let (q, r) = requantize_mul(i18(-2.5), i18(2.0)).unwrap();
    assert!((as_f64(&q) - (-5.0)).abs() < 1e-9);
    assert!((0..SCALE_18).contains(&r));
}

#[test]
fn requantizing_rounds_down() {
    assert_eq!(requantize_raw(-1).unwrap(), (I18::from_raw(-1), SCALE_18 - 1));
    assert_eq!(requantize_raw(SCALE_18 + 5).unwrap(), (I18::from_raw(1), 5));
    let largest = i64::MAX as i128;
    assert!(requantize_raw((largest + 1) * SCALE_18 - 1).is_ok());
    let e = requantize_raw((largest + 1) * SCALE_18).unwrap_err();
    assert!(e.message().starts_with("fixed point error: raw value 9223372036854775808"));
    assert!(requantize_mul(i18(8.0), i18(8.0)).is_err());
}

// ---- Division ----

#[test]
fn negative_divisor_is_rejected_with_typed_error_not_panic() {
    let divisor = i18(-2.0);
    let result = div_quotient_remainder(i18(1.0), divisor);
    assert_eq!(result, Err(DivError::NonPositiveDivisor { divisor: divisor.raw() }));
}

#[test]
fn zero_divisor_is_rejected_with_typed_error_not_panic() {
    let result = div_quotient_remainder(i18(1.0), I18::from_raw(0));
    assert_eq!(result, Err(DivError::NonPositiveDivisor { divisor: 0 }));
}

#[test]
fn a_quotient_out_of_range_is_an_error() {
    // 1 divided by the smallest number.
    let result = div_quotient_remainder(i18(9.0), I18::from_raw(1));
    let e = result.unwrap_err();
    assert!(!matches!(e, DivError::NonPositiveDivisor { .. }));
    assert!(!e.message().is_empty());
}

#[test]
fn quotients_round_down() {
    let (q, r) = div_quotient_remainder(i18(-1.0), i18(3.0)).unwrap();
    assert_eq!(q.raw(), -333_333_333_333_333_334);
    assert_eq!(r, 2_000_000_000_000_000_000);
}

// ---- Field elements ----

/// The order of the field, as limbs.
const ORDER: [u64; 4] =
    [0x43e1f593f0000001, 0x2833e84879b97091, 0xb85045b68181585d, 0x30644e72e131a029];

#[test]
fn positive_i64_round_trips_via_u64() {
    assert_eq!(i64_to_fr(42), Fr::from_u64(42));
}

#[test]
fn negative_i64_is_additive_inverse_in_field() {
    assert_eq!(i64_to_fr(-42), Fr::from_u64(42).negated());
}

#[test]
fn zero_maps_to_field_zero() {
    assert_eq!(i64_to_fr(0), Fr::zero());
}

#[test]
fn negative_i128_is_additive_inverse_in_field() {
    assert_eq!(
        i128_to_fr(-123456789012345i128),
        Fr::from_u128(123456789012345u128).negated()
    );
}

#[test]
fn field_arithmetic_is_modular() {
    assert_eq!(Fr::from_u64(5).limbs(), [5, 0, 0, 0]);
    assert_eq!(Fr::from_u128(1 << 64).limbs(), [0, 1, 0, 0]);
    let minus_one = Fr::one().negated();
    assert_eq!(minus_one.limbs(), [ORDER[0] - 1, ORDER[1], ORDER[2], ORDER[3]]);
    assert_eq!(minus_one.plus(&Fr::from_u64(3)), Fr::from_u64(2));
    assert_eq!(minus_one.times(&minus_one), Fr::one());
    assert_eq!(Fr::from_u64(6).times(&Fr::from_u64(7)), Fr::from_u64(42));
    assert_eq!(minus_one.doubled(), Fr::from_u64(2).negated());
    assert_eq!(Fr::zero().negated(), Fr::zero());
    assert_eq!(i64_to_fr(i64::MIN).plus(&Fr::from_u64(1 << 63)), Fr::zero());
}

#[test]
fn a_shifted_witness_is_nonnegative() {
    let (fr, raw) = shifted_i64_witness(i64::MIN);
    assert_eq!((fr, raw), (Fr::zero(), 0));
    let (fr, raw) = shifted_i64_witness(-1);
    assert_eq!((fr, raw), (Fr::from_u64((1 << 63) - 1), (1 << 63) - 1));
}

// ---- Encodings ----

#[test]
fn numbers_and_names_are_written_with_their_lengths() {
    let mut bytes: Vec<u8> = Vec::new();
    encode_usize(&mut bytes, 258);
    assert_eq!(bytes, vec![2, 1, 0, 0, 0, 0, 0, 0]);
    let mut bytes: Vec<u8> = vec![9];
    encode_string(&mut bytes, "ab");
    assert_eq!(bytes, vec![9, 2, 0, 0, 0, 0, 0, 0, 0, b'a', b'b']);
    let mut bytes: Vec<u8> = Vec::new();
    encode_usizes(&mut bytes, &[3]);
    assert_eq!(bytes, vec![1, 0, 0, 0, 0, 0, 0, 0, 3, 0, 0, 0, 0, 0, 0, 0]);
}

#[test]
fn the_order_of_insertion_does_not_change_a_shape() {
    let points = |raw: i64| RsqrtDomain::RawAnchors(vec![raw]);
    let mut first = RmsNormDomains::new();
    first.insert(4, 10, points(1));
    first.insert(2, 10, points(2));
    first.insert(4, 9, points(3));
    let mut second = RmsNormDomains::new();
    second.insert(4, 9, points(3));
    second.insert(4, 10, points(7));
    second.insert(2, 10, points(2));
    second.insert(4, 10, points(1));
    let keys: Vec<(usize, u64)> =
        first.entries().iter().map(|e| (e.dim, e.epsilon_milli)).collect();
    assert_eq!(keys, vec![(2, 10), (4, 9), (4, 10)]);
    assert!(second.get(4, 10).is_some());
    assert!(second.get(4, 11).is_none());
    let mut params = AssemblerCircuit::empty().params().clone();
    let plain = params.canonical_shape_bytes();
    params.rms_norm_domains = first;
    let with_first = params.canonical_shape_bytes();
    params.rms_norm_domains = second;
    assert_eq!(with_first, params.canonical_shape_bytes());
    assert_ne!(with_first, plain);
}

#[test]
fn a_shape_is_identified_by_the_digest_of_its_bytes() {
    let circuit = AssemblerCircuit::empty();
    let bytes = circuit.params().canonical_shape_bytes();
    assert_eq!(circuit.params().shape_digest(), *blake3::hash(&bytes).as_bytes());
}

// ---- Boundaries ----

fn boundary(
    id: &str,
    edges: Vec<&str>,
    outputs: Vec<&str>,
    count: usize,
) -> Result<BoundaryDescriptor, BoundaryCommitmentError> {
    BoundaryDescriptor::flat_i18(
        BoundaryRole::Output,
        id,
        edges.iter().map(|s| s.to_string()).collect(),
        outputs.iter().map(|s| s.to_string()).collect(),
        count,
        1_000_000_000_000_000_000,
    )
}

#[test]
fn a_boundary_names_what_is_wrong_with_it() {
    assert!(boundary("virtual:0", vec!["a", "b"], vec!["y"], 1).is_ok());
    assert_eq!(boundary("virtual:0", vec![], vec![], 0), Err(BoundaryCommitmentError::EmptyTensor));
    assert_eq!(
        boundary("virtual:0", vec![], vec![], MAX_BOUNDARY_ELEMENTS + 1),
        Err(BoundaryCommitmentError::TooManyElements)
    );
    assert_eq!(boundary("", vec![], vec![], 1), Err(BoundaryCommitmentError::InvalidIdentity));
    assert_eq!(
        boundary("virtual:0", vec!["b", "a"], vec![], 1),
        Err(BoundaryCommitmentError::NonCanonicalIdentities)
    );
    assert_eq!(
        boundary("virtual:0", vec!["a", "a"], vec![], 1),
        Err(BoundaryCommitmentError::NonCanonicalIdentities)
    );
    let names: Vec<String> = (0..MAX_BOUNDARY_IDENTITIES + 1).map(|i| format!("{i:09}")).collect();
    let many: Vec<&str> = names.iter().map(|s| s.as_str()).collect();
    assert_eq!(
        boundary("virtual:0", many, vec![], 1),
        Err(BoundaryCommitmentError::TooManyIdentities)
    );
    let e = boundary("", vec![], vec![], 1).unwrap_err();
    assert!(!e.message().is_empty());
}

#[test]
fn names_are_bounded_and_sorted() {
    assert!(valid_id("graph-input:x"));
    assert!(!valid_id(""));
    assert!(valid_id(&"x".repeat(MAX_BOUNDARY_ID_BYTES)));
    assert!(!valid_id(&"x".repeat(MAX_BOUNDARY_ID_BYTES + 1)));
    let words = |ws: &[&str]| ws.iter().map(|w| w.to_string()).collect::<Vec<String>>();
    assert!(strictly_sorted(&words(&["a", "ab", "b"])));
    assert!(!strictly_sorted(&words(&["b", "a"])));
    assert!(!strictly_sorted(&words(&["a", "a"])));
    assert!(strictly_sorted(&words(&[])));
}

/// The field element that sixteen little-endian bytes write.
fn limb(bytes: &[u8]) -> Fr {
    let mut value = 0u128;
    for b in bytes.iter().rev() {
        value = value * 256 + *b as u128;
    }
    Fr::from_u128(value)
}

#[test]
fn a_name_stands_for_the_halves_of_its_digest() {
    let mut bytes: Vec<u8> = b"zkie.boundary-identity.v1\0".to_vec();
    bytes.extend(3u64.to_le_bytes());
    bytes.extend(b"abc");
    let digest = *blake3::hash(&bytes).as_bytes();
    assert_eq!(identity_fields("abc"), [limb(&digest[0..16]), limb(&digest[16..32])]);
    assert_ne!(identity_fields("abc"), identity_fields("abd"));
}

#[test]
fn the_hash_of_one_and_two_is_the_known_one() {
    let hash = poseidon_compress_native(Fr::from_u64(1), Fr::from_u64(2));
    assert_eq!(
        hash.limbs(),
        [0x9e19607a4417189a, 0x2a3617f274324551, 0x3df64c6b9662e9cf, 0x115cc0f5e7d69041]
    );
    assert_ne!(hash, poseidon_compress_native(Fr::from_u64(2), Fr::from_u64(1)));
}

#[test]
fn a_commitment_folds_the_fields_and_the_values() {
    let descriptor = boundary("virtual:0", vec![], vec!["y"], 2).unwrap();
    let values = vec![I18::from_raw(5), I18::from_raw(-7)];
    let mut state = identity_fields("zkie.poseidon-boundary-fold.v1")[0];
    for field in descriptor.canonical_fields() {
        state = poseidon_compress_native(state, field);
    }
    state = poseidon_compress_native(state, Fr::from_u64(2));
    for value in &values {
        state = poseidon_compress_native(state, i64_to_fr(value.raw()));
    }
    let commitment = commit_boundary_native(&descriptor, &values).unwrap();
    assert_eq!(commitment, state);
    assert_eq!(
        commit_boundary_native(&descriptor, &vec![I18::from_raw(5)]),
        Err(BoundaryCommitmentError::LengthMismatch { expected: 2, actual: 1 })
    );
    let swapped = vec![I18::from_raw(-7), I18::from_raw(5)];
    assert_ne!(commitment, commit_boundary_native(&descriptor, &swapped).unwrap());
}
