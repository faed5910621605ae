//! The field elements that stand for a name: the two halves of its BLAKE3 digest.
use vstd::prelude::*;
use vstd::string::*;
use vstd::utf8::encode_utf8;

use crate::encode::{le_bytes, push_all, push_le};
use crate::field::{two64, word, word_value, Fr};

verus! {

/// The BLAKE3 digest of bytes.
pub uninterp spec fn blake3_digest(bytes: Seq<u8>) -> Seq<u8>;

/// `hash` of `blake3`: the 32 bytes of the digest, which depend on the input alone. What they
/// are is not stated.
#[verifier::external_body]
pub(crate) fn blake3_hash(bytes: &Vec<u8>) -> (digest: [u8; 32])
    ensures
        digest@ == blake3_digest(bytes@),
{
    *blake3::hash(bytes).as_bytes()
}

/// The integer that sixteen little-endian bytes from `at` write.
pub open spec fn limb_value(b: Seq<u8>, at: int) -> int {
    word_value(b, at) + two64() * word_value(b, at + 8)
}

/// The two halves of a digest, as integers.
pub open spec fn digest_limbs(digest: Seq<u8>) -> Seq<int> {
    seq![limb_value(digest, 0), limb_value(digest, 16)]
}

pub open spec fn identity_tag() -> Seq<u8> {
    encode_utf8("zkie.boundary-identity.v1\0"@)
}

/// What is hashed for a name: a tag, the length of the name and the name.
pub open spec fn identity_bytes(name: Seq<char>) -> Seq<u8> {
    identity_tag() + le_bytes(encode_utf8(name).len() as int, 8) + encode_utf8(name)
}

/// The field elements that stand for a name.
pub open spec fn identity(name: Seq<char>) -> Seq<int> {
    digest_limbs(blake3_digest(identity_bytes(name)))
}

/// The values of field elements.
pub open spec fn values_of(fields: Seq<Fr>) -> Seq<int> {
    Seq::new(fields.len(), |i: int| fields[i]@)
}

/// Sixteen bytes write less than the order.
pub proof fn lemma_limb_range(b: Seq<u8>, at: int)
    ensures
        0 <= limb_value(b, at) < 0x1_0000_0000_0000_0000_0000_0000_0000_0000int,
        0 <= word_value(b, at) < two64(),
        0 <= word_value(b, at + 8) < two64(),
{
}

/// The field element that sixteen bytes of a digest write.
pub(crate) fn limb_to_fr(digest: &[u8; 32], at: usize) -> (r: Fr)
    requires
        at <= 16,
    ensures
        r@ == limb_value(digest@, at as int),
{
    proof {
        lemma_limb_range(digest@, at as int);
    }
    let low: u128 = word(digest, at) as u128;
    let high: u128 = word(digest, at + 8) as u128;
    Fr::from_u128(low + 0x1_0000_0000_0000_0000u128 * high)
}

/// The two field elements that a digest writes.
pub(crate) fn digest_fields(digest: &[u8; 32]) -> (r: [Fr; 2])
    ensures
        values_of(r@) == digest_limbs(digest@),
{
    let r = [limb_to_fr(digest, 0), limb_to_fr(digest, 16)];
    assert(values_of(r@) =~= digest_limbs(digest@));
    r
}

/// The two field elements that stand for a name.
pub fn identity_fields(value: &str) -> (r: [Fr; 2])
    ensures
        values_of(r@) == identity(value@),
{
    let mut bytes: Vec<u8> = Vec::new();
    push_all(&mut bytes, "zkie.boundary-identity.v1\0".as_bytes());
    let name = value.as_bytes();
    push_le(&mut bytes, name.len() as u64, 8);
    push_all(&mut bytes, name);
    assert(bytes@ =~= identity_bytes(value@));
    digest_fields(&blake3_hash(&bytes))
}

} // verus!
