//! What commitments determine.
use vstd::arithmetic::power::pow;
use vstd::prelude::*;
use vstd::utf8::{
    encode_utf8, encode_utf8_decode_utf8, is_ascii_chars, is_ascii_chars_encode_utf8,
};

use crate::chips::layer_norm::all_i64;
use crate::chips::poseidon_boundary::commit::{cell_fields, env_fields};
use crate::chips::poseidon_boundary::descriptor::{
    all_valid_ids, bytes_below, identities, is_strictly_sorted, is_valid_id, name_below, role_tag,
    texts, Boundary, BoundaryCommitmentError, BoundaryRole,
};
use crate::chips::poseidon_boundary::hash::{
    absorb, commitment, commitment_domain, compress, fifth_power, lemma_absorb_concat,
    lemma_absorb_push, residues,
};
use crate::chips::poseidon_boundary::identity::{
    blake3_digest, digest_limbs, identity, identity_bytes, identity_tag, lemma_limb_range,
    limb_value, values_of,
};
use crate::chips::reduce::cell_raws;
use crate::encode::{le_bytes, lemma_le_len, lemma_same_split};
use crate::field::{
    bytes_value, lemma_centered_congruent, lemma_centered_of, modulus, two64, word_value, Fr,
};
use crate::fixed_point::is_i64;
use crate::layout::AssignedCell;
use crate::plonk::{lemma_at_range, Assignment};

verus! {

/// The same names, as far as their field elements tell.
pub open spec fn same_identities(xs: Seq<Seq<char>>, ys: Seq<Seq<char>>) -> bool {
    &&& xs.len() == ys.len()
    &&& forall|i: int| 0 <= i < xs.len() ==> identity(#[trigger] xs[i]) == identity(ys[i])
}

proof fn lemma_identities_len(xs: Seq<Seq<char>>)
    ensures
        identities(xs).len() == 2 * xs.len(),
    decreases xs.len(),
{
    if xs.len() > 0 {
        lemma_identities_len(xs.drop_last());
    }
}

proof fn lemma_identities(xs: Seq<Seq<char>>, ys: Seq<Seq<char>>)
    requires
        xs.len() == ys.len(),
        identities(xs) == identities(ys),
    ensures
        same_identities(xs, ys),
    decreases xs.len(),
{
    if xs.len() > 0 {
        let (a, b) = (xs.drop_last(), ys.drop_last());
        lemma_identities_len(a);
        lemma_identities_len(b);
        lemma_same_split(identities(a), identity(xs.last()), identities(b), identity(ys.last()));
        lemma_identities(a, b);
        assert forall|i: int| 0 <= i < xs.len() implies identity(#[trigger] xs[i]) == identity(
            ys[i],
        ) by {
            if i < xs.len() - 1 {
                assert(xs[i] == a[i] && ys[i] == b[i]);
            }
        }
    }
}

/// Descriptors with the same fields have the same role, count and scale and the same names, as
/// far as the names' field elements tell: every part is bound, and none can take another's place.
pub proof fn lemma_canonical_unambiguous(a: Boundary, b: Boundary)
    requires
        a.canonical() == b.canonical(),
    ensures
        a.role == b.role,
        a.element_count == b.element_count,
        a.quantization_scale == b.quantization_scale,
        identity(a.register_id) == identity(b.register_id),
        same_identities(a.edge_ids, b.edge_ids),
        same_identities(a.graph_output_names, b.graph_output_names),
{
    let (fa, fb) = (a.canonical(), b.canonical());
    assert(fa[1] == role_tag(a.role) && fb[1] == role_tag(b.role));
    assert(fa[4] == a.element_count && fb[4] == b.element_count);
    assert(fa[5] == a.quantization_scale && fb[5] == b.quantization_scale);
    assert(fa[6] == identity(a.register_id)[0] && fb[6] == identity(b.register_id)[0]);
    assert(fa[7] == identity(a.register_id)[1] && fb[7] == identity(b.register_id)[1]);
    assert(identity(a.register_id) =~= identity(b.register_id));
    assert(fa[8] == a.edge_ids.len() && fb[8] == b.edge_ids.len());
    let n = 9 + 2 * a.edge_ids.len() as int;
    lemma_identities_len(a.edge_ids);
    lemma_identities_len(b.edge_ids);
    lemma_identities_len(a.graph_output_names);
    lemma_identities_len(b.graph_output_names);
    assert(fa.subrange(9, n) =~= identities(a.edge_ids));
    assert(fb.subrange(9, n) =~= identities(b.edge_ids));
    lemma_identities(a.edge_ids, b.edge_ids);
    assert(fa[n] == a.graph_output_names.len() && fb[n] == b.graph_output_names.len());
    assert(fa.skip(n + 1) =~= identities(a.graph_output_names));
    assert(fb.skip(n + 1) =~= identities(b.graph_output_names));
    lemma_identities(a.graph_output_names, b.graph_output_names);
}

/// The commitment that a circuit proves of cells is the commitment to the signed integers in
/// them: what is committed to outside a circuit and what is committed to inside agree.
pub proof fn lemma_commitment_of_cells(
    boundary: Boundary,
    env: Assignment,
    cells: Seq<AssignedCell>,
)
    ensures
        commitment(boundary, env_fields(env, cells)) == commitment(
            boundary,
            residues(cell_raws(env, cells)),
        ),
{
    broadcast use lemma_at_range;

    assert forall|i: int| 0 <= i < cells.len() implies #[trigger] env_fields(env, cells)[i]
        == residues(cell_raws(env, cells))[i] by {
        lemma_centered_congruent(env.cell(cells[i].cell));
    }
    assert(env_fields(env, cells) =~= residues(cell_raws(env, cells)));
}

/// What is hashed for a name determines the name: no two names are hashed as the same bytes.
pub proof fn lemma_identity_bytes_injective(a: Seq<char>, b: Seq<char>)
    requires
        identity_bytes(a) == identity_bytes(b),
    ensures
        a == b,
{
    let (ea, eb) = (encode_utf8(a), encode_utf8(b));
    let (la, lb) = (le_bytes(ea.len() as int, 8), le_bytes(eb.len() as int, 8));
    lemma_le_len(ea.len() as int, 8);
    lemma_le_len(eb.len() as int, 8);
    lemma_same_split(identity_tag() + la, ea, identity_tag() + lb, eb);
    encode_utf8_decode_utf8(a);
    encode_utf8_decode_utf8(b);
}

/// A digest can be read back from its two field elements.
pub proof fn lemma_digest_limbs_injective(a: Seq<u8>, b: Seq<u8>)
    requires
        a.len() == 32,
        b.len() == 32,
        digest_limbs(a) == digest_limbs(b),
    ensures
        a == b,
{
    assert(digest_limbs(a)[0] == limb_value(a, 0) && digest_limbs(b)[0] == limb_value(b, 0));
    assert(digest_limbs(a)[1] == limb_value(a, 16) && digest_limbs(b)[1] == limb_value(b, 16));
    lemma_limb_injective(a, b, 0);
    lemma_limb_injective(a, b, 16);
    assert(a =~= b);
}

proof fn lemma_limb_injective(a: Seq<u8>, b: Seq<u8>, at: int)
    requires
        limb_value(a, at) == limb_value(b, at),
    ensures
        forall|i: int| at <= i < at + 16 ==> a[i] == b[i],
{
    lemma_limb_range(a, at);
    lemma_limb_range(b, at);
    assert(word_value(a, at) == word_value(b, at));
    assert(word_value(a, at + 8) == word_value(b, at + 8));
    lemma_word_injective(a, b, at);
    lemma_word_injective(a, b, at + 8);
}

proof fn lemma_word_injective(a: Seq<u8>, b: Seq<u8>, at: int)
    requires
        word_value(a, at) == word_value(b, at),
    ensures
        forall|i: int| at <= i < at + 8 ==> a[i] == b[i],
{
    let (a7, b7) = (a[at + 7] as int, b[at + 7] as int);
    let (a6, b6) = (a[at + 6] + 256 * a7, b[at + 6] + 256 * b7);
    let (a5, b5) = (a[at + 5] + 256 * a6, b[at + 5] + 256 * b6);
    let (a4, b4) = (a[at + 4] + 256 * a5, b[at + 4] + 256 * b5);
    let (a3, b3) = (a[at + 3] + 256 * a4, b[at + 3] + 256 * b4);
    let (a2, b2) = (a[at + 2] + 256 * a3, b[at + 2] + 256 * b3);
    let (a1, b1) = (a[at + 1] + 256 * a2, b[at + 1] + 256 * b2);
    lemma_low_byte(a[at], a1, b[at], b1);
    lemma_low_byte(a[at + 1], a2, b[at + 1], b2);
    lemma_low_byte(a[at + 2], a3, b[at + 2], b3);
    lemma_low_byte(a[at + 3], a4, b[at + 3], b4);
    lemma_low_byte(a[at + 4], a5, b[at + 4], b5);
    lemma_low_byte(a[at + 5], a6, b[at + 5], b6);
    lemma_low_byte(a[at + 6], a7, b[at + 6], b7);
    assert forall|i: int| at <= i < at + 8 implies a[i] == b[i] by {
        if i == at || i == at + 1 || i == at + 2 || i == at + 3 {
        } else if i == at + 4 || i == at + 5 || i == at + 6 {
        } else {
            assert(i == at + 7);
        }
    }
}

proof fn lemma_low_byte(x: u8, u: int, y: u8, v: int)
    requires
        x + 256 * u == y + 256 * v,
    ensures
        x == y,
        u == v,
{
}

/// Two different names are hashed to one digest.
pub open spec fn names_collide(a: Seq<char>, b: Seq<char>) -> bool {
    a != b && blake3_digest(identity_bytes(a)) == blake3_digest(identity_bytes(b))
}

/// The names of a descriptor that are committed to.
pub open spec fn names_of(b: Boundary) -> Seq<Seq<char>> {
    seq![b.register_id] + b.edge_ids + b.graph_output_names
}

/// The digests of names have 32 bytes.
pub open spec fn digests_are_long(names: Seq<Seq<char>>) -> bool {
    forall|i: int|
        0 <= i < names.len() ==> blake3_digest(identity_bytes(#[trigger] names[i])).len() == 32
}

/// Descriptors with the same fields are the same, unless a name of one is hashed to the digest of
/// another name in its place.
pub proof fn lemma_canonical_determines_the_descriptor(a: Boundary, b: Boundary)
    requires
        a.canonical() == b.canonical(),
    ensures
        names_of(a).len() == names_of(b).len(),
        digests_are_long(names_of(a)) && digests_are_long(names_of(b)) ==> a == b || exists|
            i: int,
        |
            0 <= i < names_of(a).len() && names_collide(#[trigger] names_of(a)[i], names_of(b)[i]),
{
    lemma_canonical_unambiguous(a, b);
    let (na, nb) = (names_of(a), names_of(b));
    if digests_are_long(na) && digests_are_long(nb) && !(exists|i: int|
        0 <= i < na.len() && names_collide(#[trigger] na[i], nb[i])) {
        assert forall|i: int| 0 <= i < na.len() implies na[i] == nb[i] by {
            if i == 0 {
                assert(identity(na[i]) == identity(nb[i]));
            } else if i < 1 + a.edge_ids.len() {
                assert(na[i] == a.edge_ids[i - 1] && nb[i] == b.edge_ids[i - 1]);
            } else {
                let k = i - 1 - a.edge_ids.len();
                assert(na[i] == a.graph_output_names[k] && nb[i] == b.graph_output_names[k]);
            }
            assert(identity(na[i]) == identity(nb[i]));
            lemma_digest_limbs_injective(
                blake3_digest(identity_bytes(na[i])),
                blake3_digest(identity_bytes(nb[i])),
            );
            assert(!names_collide(na[i], nb[i]));
        }
        assert(na[0] == a.register_id && nb[0] == b.register_id);
        assert forall|i: int| 0 <= i < a.edge_ids.len() implies a.edge_ids[i]
            == b.edge_ids[i] by {
            assert(na[i + 1] == a.edge_ids[i] && nb[i + 1] == b.edge_ids[i]);
        }
        assert forall|i: int| 0 <= i < a.graph_output_names.len() implies a.graph_output_names[i]
            == b.graph_output_names[i] by {
            let k = i + 1 + a.edge_ids.len();
            assert(na[k] == a.graph_output_names[i] && nb[k] == b.graph_output_names[i]);
        }
        assert(a.edge_ids =~= b.edge_ids);
        assert(a.graph_output_names =~= b.graph_output_names);
        assert(a =~= b);
    }
}

/// The fields of a descriptor: a header of six, two for each name, and the two counts of names.
/// The first is the version, and the tensor's count and scale stand fifth and sixth.
pub proof fn lemma_canonical_header(b: Boundary)
    ensures
        b.canonical().len() == 10 + 2 * (b.edge_ids.len() + b.graph_output_names.len()),
        b.canonical()[0] == 1,
        b.canonical()[1] == match b.role {
            BoundaryRole::Input => 1int,
            BoundaryRole::Output => 2int,
        },
        b.canonical()[2] == 1 && b.canonical()[3] == 1,
        b.canonical()[4] == b.element_count,
        b.canonical()[5] == b.quantization_scale,
        b.canonical()[8] == b.edge_ids.len(),
        b.canonical()[9 + 2 * b.edge_ids.len() as int] == b.graph_output_names.len(),
{
    lemma_identities_len(b.edge_ids);
    lemma_identities_len(b.graph_output_names);
}

/// Each name's two field elements stand in its place among the fields of a descriptor: the
/// register's after the header, then those of the edges and of the graph's outputs, each list in
/// its order.
pub proof fn lemma_names_in_their_places(b: Boundary, i: int)
    ensures
        b.canonical()[6] == identity(b.register_id)[0],
        b.canonical()[7] == identity(b.register_id)[1],
        0 <= i < b.edge_ids.len() ==> b.canonical()[9 + 2 * i] == identity(b.edge_ids[i])[0]
            && b.canonical()[10 + 2 * i] == identity(b.edge_ids[i])[1],
        0 <= i < b.graph_output_names.len() ==> {
            let at = 10 + 2 * b.edge_ids.len() + 2 * i;
            &&& b.canonical()[at] == identity(b.graph_output_names[i])[0]
            &&& b.canonical()[at + 1] == identity(b.graph_output_names[i])[1]
        },
{
    lemma_identities_len(b.edge_ids);
    lemma_identities_len(b.graph_output_names);
    lemma_identities_at(b.edge_ids, i);
    lemma_identities_at(b.graph_output_names, i);
}

proof fn lemma_identities_at(names: Seq<Seq<char>>, i: int)
    ensures
        0 <= i < names.len() ==> identities(names)[2 * i] == identity(names[i])[0] && identities(
            names,
        )[2 * i + 1] == identity(names[i])[1],
    decreases names.len(),
{
    if names.len() > 0 {
        let rest = names.drop_last();
        lemma_identities_at(rest, i);
        lemma_identities_len(rest);
        if 0 <= i < rest.len() {
            assert(rest[i] == names[i]);
        }
    }
}

/// The two field elements of a digest are the integers that its halves write, the first half and
/// the least significant byte first.
pub proof fn lemma_digest_limbs_in_order(digest: Seq<u8>)
    requires
        digest.len() == 32,
    ensures
        digest_limbs(digest).len() == 2,
        digest == le_bytes(digest_limbs(digest)[0], 16) + le_bytes(digest_limbs(digest)[1], 16),
{
    lemma_limb_bytes(digest, 0);
    lemma_limb_bytes(digest, 16);
    assert(digest =~= digest.subrange(0, 16) + digest.subrange(16, 32));
}

proof fn lemma_limb_bytes(b: Seq<u8>, at: int)
    requires
        0 <= at,
        at + 16 <= b.len(),
    ensures
        le_bytes(limb_value(b, at), 16) == b.subrange(at, at + 16),
{
    lemma_bytes_of(b, at, 16);
    let (lo, hi) = (word_value(b, at), word_value(b, at + 8));
    assert(read_bytes(b, at, 16) == limb_value(b, at)) by {
        reveal_with_fuel(read_bytes, 17);
    }
}

/// The integer that `n` little-endian bytes from `at` write.
spec fn read_bytes(b: Seq<u8>, at: int, n: nat) -> int
    decreases n,
{
    if n == 0 {
        0
    } else {
        b[at] + 256 * read_bytes(b, at + 1, (n - 1) as nat)
    }
}

proof fn lemma_bytes_of(b: Seq<u8>, at: int, n: nat)
    requires
        0 <= at,
        at + n <= b.len(),
    ensures
        le_bytes(read_bytes(b, at, n), n) == b.subrange(at, at + n),
    decreases n,
{
    if n > 0 {
        let rest = read_bytes(b, at + 1, (n - 1) as nat);
        lemma_bytes_of(b, at + 1, (n - 1) as nat);
        let v = read_bytes(b, at, n);
        assert(v % 256 == b[at] && v / 256 == rest);
        assert(b.subrange(at, at + n) =~= seq![b[at]] + b.subrange(at + 1, at + n));
    } else {
        assert(b.subrange(at, at + n) =~= Seq::<u8>::empty());
    }
}

/// The 32 bytes of a field element write an integer with the least significant byte first.
pub proof fn lemma_field_bytes_in_order(b: Seq<u8>)
    requires
        b.len() == 32,
    ensures
        le_bytes(bytes_value(b), 32) == b,
{
    lemma_bytes_of(b, 0, 32);
    assert(b.subrange(0, 32) =~= b);
    lemma_read_word(b, 0, 24);
    lemma_read_word(b, 8, 16);
    lemma_read_word(b, 16, 8);
    lemma_read_word(b, 24, 0);
    reveal_with_fuel(read_bytes, 1);
}

proof fn lemma_read_word(b: Seq<u8>, at: int, n: nat)
    ensures
        read_bytes(b, at, n + 8) == word_value(b, at) + two64() * read_bytes(b, at + 8, n),
{
    reveal_with_fuel(read_bytes, 9);
}

/// What is hashed for a name, read by position: a tag of 26 bytes, the length of the name in
/// eight, least significant first, and the name.
pub proof fn lemma_identity_bytes_in_order(name: Seq<char>)
    ensures
        identity_bytes(name).len() == 34 + encode_utf8(name).len(),
        identity_bytes(name).take(26) == encode_utf8("zkie.boundary-identity.v1\0"@),
        identity_bytes(name).subrange(26, 34) == le_bytes(encode_utf8(name).len() as int, 8),
        identity_bytes(name).skip(34) == encode_utf8(name),
{
    let tag = "zkie.boundary-identity.v1\0";
    reveal_strlit("zkie.boundary-identity.v1\0");
    assert(is_ascii_chars(tag@));
    is_ascii_chars_encode_utf8(tag@);
    let size = encode_utf8(name).len() as int;
    lemma_le_len(size, 8);
    assert(identity_bytes(name).take(26) =~= encode_utf8(tag@));
    assert(identity_bytes(name).subrange(26, 34) =~= le_bytes(size, 8));
    assert(identity_bytes(name).skip(34) =~= encode_utf8(name));
}

/// A commitment starts from the first half of the digest of its own name, and folds first the
/// descriptor's fields, then the count of the values, and then the values.
pub proof fn lemma_commitment_in_order(b: Boundary, values: Seq<int>)
    ensures
        ({
            let digest = blake3_digest(identity_bytes("zkie.poseidon-boundary-fold.v1"@));
            let named = absorb(digest_limbs(digest)[0], b.canonical());
            let counted = compress(named, values.len() as int);
            commitment(b, values) == absorb(counted, values)
        }),
{
    let start = commitment_domain();
    let head = b.canonical().push(values.len() as int);
    assert(b.canonical() + seq![values.len() as int] + values =~= head + values);
    lemma_absorb_concat(start, head, values);
    lemma_absorb_push(start, b.canonical(), values.len() as int);
}

/// Byte strings are ordered by the first byte in which they differ: what they have in common in
/// front does not count, a smaller first byte decides, and nothing is below everything else.
pub proof fn lemma_bytes_below_decides(p: Seq<u8>, a: Seq<u8>, b: Seq<u8>, x: u8, y: u8)
    ensures
        bytes_below(p + a, p + b) == bytes_below(a, b),
        x < y ==> bytes_below(seq![x] + a, seq![y] + b) && !bytes_below(seq![y] + b, seq![x] + a),
        bytes_below(Seq::empty(), a) == (a.len() > 0),
        !bytes_below(a, Seq::empty()),
    decreases p.len(),
{
    if p.len() == 0 {
        assert(p + a =~= a && p + b =~= b);
    } else {
        let rest = p.skip(1);
        lemma_bytes_below_decides(rest, a, b, x, y);
        assert((p + a).skip(1) =~= rest + a);
        assert((p + b).skip(1) =~= rest + b);
    }
}

/// The order of byte strings is a strict total order.
pub proof fn lemma_bytes_below_is_an_order(a: Seq<u8>, b: Seq<u8>, c: Seq<u8>)
    ensures
        !bytes_below(a, a),
        bytes_below(a, b) && bytes_below(b, c) ==> bytes_below(a, c),
        bytes_below(a, b) || bytes_below(b, a) || a == b,
        !(bytes_below(a, b) && bytes_below(b, a)),
    decreases a.len() + b.len() + c.len(),
{
    if a.len() > 0 && b.len() > 0 && c.len() > 0 {
        lemma_bytes_below_is_an_order(a.skip(1), b.skip(1), c.skip(1));
    } else if a.len() > 0 && b.len() > 0 {
        lemma_bytes_below_is_an_order(a.skip(1), b.skip(1), c);
    } else if a.len() > 0 {
        lemma_bytes_below_is_an_order(a.skip(1), b, c);
    }
    if a.len() > 0 && b.len() > 0 && a[0] == b[0] && a.skip(1) == b.skip(1) {
        assert(a =~= seq![a[0]] + a.skip(1));
        assert(b =~= seq![b[0]] + b.skip(1));
    }
    if a.len() == 0 && b.len() == 0 {
        assert(a =~= b);
    }
}

/// Names in canonical order are in order throughout, and none occurs twice.
pub proof fn lemma_sorted_names(names: Seq<Seq<char>>, i: int, j: int)
    requires
        is_strictly_sorted(names),
        0 <= i < j < names.len(),
    ensures
        name_below(names[i], names[j]),
        !name_below(names[j], names[i]),
        names[i] != names[j],
    decreases j - i,
{
    let (a, b) = (encode_utf8(names[i]), encode_utf8(names[j]));
    assert(name_below(names[j - 1], names[j - 1 + 1]));
    if i < j - 1 {
        lemma_sorted_names(names, i, j - 1);
        lemma_bytes_below_is_an_order(a, encode_utf8(names[j - 1]), b);
    }
    lemma_bytes_below_is_an_order(a, b, a);
}

/// Names that are in order throughout are in canonical order.
pub proof fn lemma_names_sorted(names: Seq<Seq<char>>)
    requires
        forall|i: int, j: int|
            0 <= i < j < names.len() ==> name_below(#[trigger] names[i], #[trigger] names[j]),
    ensures
        is_strictly_sorted(names),
{
    assert forall|i: int| 0 <= i && i + 1 < names.len() implies name_below(
        #[trigger] names[i],
        names[i + 1],
    ) by {}
}

/// A descriptor is accepted exactly where its tensor has from one to 8192 elements, it has at most
/// 64 names beside the register's, every name has from one to 256 bytes, and both lists of names
/// are in order.
pub proof fn lemma_accepted_descriptors(b: Boundary)
    ensures
        b.error() is None <==> {
            &&& 1 <= b.element_count <= 8192
            &&& b.edge_ids.len() + b.graph_output_names.len() <= 64
            &&& forall|i: int|
                0 <= i < names_of(b).len() ==> 1 <= encode_utf8(#[trigger] names_of(b)[i]).len()
                    <= 256
            &&& is_strictly_sorted(b.edge_ids)
            &&& is_strictly_sorted(b.graph_output_names)
        },
        b.error() == Some(BoundaryCommitmentError::EmptyTensor) <==> b.element_count == 0,
        b.error() == Some(BoundaryCommitmentError::TooManyElements) <==> b.element_count > 8192,
{
    let names = names_of(b);
    let short = forall|i: int|
        0 <= i < names.len() ==> 1 <= encode_utf8(#[trigger] names[i]).len() <= 256;
    if short {
        assert(names[0] == b.register_id);
        assert forall|i: int| 0 <= i < b.edge_ids.len() implies is_valid_id(
            #[trigger] b.edge_ids[i],
        ) by {
            assert(names[i + 1] == b.edge_ids[i]);
        }
        assert forall|i: int| 0 <= i < b.graph_output_names.len() implies is_valid_id(
            #[trigger] b.graph_output_names[i],
        ) by {
            assert(names[i + 1 + b.edge_ids.len()] == b.graph_output_names[i]);
        }
    }
    if is_valid_id(b.register_id) && all_valid_ids(b.edge_ids) && all_valid_ids(
        b.graph_output_names,
    ) {
        assert forall|i: int| 0 <= i < names.len() implies 1 <= encode_utf8(
            #[trigger] names[i],
        ).len() <= 256 by {
            if i == 0 {
            } else if i < 1 + b.edge_ids.len() {
                assert(names[i] == b.edge_ids[i - 1]);
                assert(is_valid_id(b.edge_ids[i - 1]));
            } else {
                let k = i - 1 - b.edge_ids.len();
                assert(names[i] == b.graph_output_names[k]);
                assert(is_valid_id(b.graph_output_names[k]));
            }
        }
    }
}

/// Folding nothing leaves a state as it is, and folding one value hashes the state with it.
pub proof fn lemma_absorb_one(state: int, v: int)
    ensures
        absorb(state, Seq::empty()) == state,
        absorb(state, seq![v]) == compress(state, v),
{
    assert(seq![v] =~= Seq::<int>::empty().push(v));
    lemma_absorb_push(state, Seq::empty(), v);
}

/// Every value of a tensor is folded into its commitment, in its place: with another value there,
/// the state before it, which depends on the descriptor, the count and the values in front
/// alone, is hashed with that other value, and the values behind are folded after it.
pub proof fn lemma_every_value_is_committed(b: Boundary, values: Seq<int>, i: int) -> (state: int)
    requires
        0 <= i < values.len(),
    ensures
        forall|v: int| #[trigger]
            commitment(b, values.update(i, v)) == absorb(compress(state, v), values.skip(i + 1)),
{
    let head = b.canonical() + seq![values.len() as int] + values.take(i);
    let state = absorb(commitment_domain(), head);
    assert forall|v: int| #[trigger]
        commitment(b, values.update(i, v)) == absorb(compress(state, v), values.skip(i + 1)) by {
        let whole = b.canonical() + seq![values.len() as int] + values.update(i, v);
        assert(whole =~= head.push(v) + values.skip(i + 1));
        lemma_absorb_concat(commitment_domain(), head.push(v), values.skip(i + 1));
        lemma_absorb_push(commitment_domain(), head, v);
    }
    state
}

/// At some step, two different pairs of a state and a value are hashed to one state.
pub open spec fn folds_collide(start: int, xs: Seq<int>, ys: Seq<int>) -> bool {
    exists|i: int| #[trigger] folds_collide_at(start, xs, ys, i)
}

pub open spec fn folds_collide_at(start: int, xs: Seq<int>, ys: Seq<int>, i: int) -> bool {
    let (s, t) = (absorb(start, xs.take(i)), absorb(start, ys.take(i)));
    &&& 0 <= i < xs.len() && i < ys.len()
    &&& (s, xs[i]) != (t, ys[i])
    &&& compress(s, xs[i]) == compress(t, ys[i])
}

proof fn lemma_fold_binds(start: int, xs: Seq<int>, ys: Seq<int>)
    requires
        xs.len() == ys.len(),
        absorb(start, xs) == absorb(start, ys),
    ensures
        xs == ys || folds_collide(start, xs, ys),
    decreases xs.len(),
{
    if xs.len() == 0 {
        assert(xs =~= ys);
    } else {
        let n = xs.len() - 1;
        let (a, b) = (xs.drop_last(), ys.drop_last());
        assert(xs.take(n) =~= a && ys.take(n) =~= b);
        if (absorb(start, a), xs[n]) != (absorb(start, b), ys[n]) {
            assert(folds_collide_at(start, xs, ys, n));
        } else {
            lemma_fold_binds(start, a, b);
            if a == b {
                assert(xs =~= a.push(xs[n]) && ys =~= b.push(ys[n]));
            } else {
                let i = choose|i: int| #[trigger] folds_collide_at(start, a, b, i);
                assert(a.take(i) =~= xs.take(i) && b.take(i) =~= ys.take(i));
                assert(folds_collide_at(start, xs, ys, i));
            }
        }
    }
}

/// A commitment binds its descriptor and its values: equal commitments of descriptors with as many
/// names and tensors with as many values are of the same fields and values, unless two steps of
/// the folds hash different pairs to one state.
pub proof fn lemma_commitment_binds(a: Boundary, xs: Seq<int>, b: Boundary, ys: Seq<int>)
    requires
        xs.len() == ys.len(),
        a.edge_ids.len() + a.graph_output_names.len() == b.edge_ids.len()
            + b.graph_output_names.len(),
        commitment(a, xs) == commitment(b, ys),
    ensures
        a.canonical() == b.canonical() && xs == ys || folds_collide(
            commitment_domain(),
            a.canonical() + seq![xs.len() as int] + xs,
            b.canonical() + seq![ys.len() as int] + ys,
        ),
{
    let (ca, cb) = (a.canonical() + seq![xs.len() as int], b.canonical() + seq![ys.len() as int]);
    lemma_canonical_header(a);
    lemma_canonical_header(b);
    lemma_fold_binds(commitment_domain(), ca + xs, cb + ys);
    if ca + xs == cb + ys {
        lemma_same_split(ca, xs, cb, ys);
        lemma_same_split(
            a.canonical(),
            seq![xs.len() as int],
            b.canonical(),
            seq![ys.len() as int],
        );
    }
}

/// The field elements of numbers determine them: tensors of 64-bit integers with the same field
/// elements are the same.
pub proof fn lemma_residues_injective(xs: Seq<int>, ys: Seq<int>)
    requires
        all_i64(xs),
        all_i64(ys),
        residues(xs) == residues(ys),
    ensures
        xs == ys,
{
    assert(residues(xs).len() == xs.len() && residues(ys).len() == ys.len());
    assert forall|i: int| 0 <= i < xs.len() implies xs[i] == ys[i] by {
        assert(residues(xs)[i] == xs[i] % modulus() && residues(ys)[i] == ys[i] % modulus());
        assert(is_i64(xs[i]) && is_i64(ys[i]));
        lemma_centered_of(xs[i]);
        lemma_centered_of(ys[i]);
    }
    assert(xs =~= ys);
}

/// The field element of a number is congruent to it and below the order.
pub proof fn lemma_residues_congruent(xs: Seq<int>, i: int)
    ensures
        residues(xs).len() == xs.len(),
        0 <= i < xs.len() ==> 0 <= residues(xs)[i] < modulus() && (residues(xs)[i] - xs[i])
            % modulus() == 0,
{
}

/// Field elements and strings are taken in their order: each value in the place of its element,
/// each name in the place of its string.
pub proof fn lemma_elements_in_order(fields: Seq<Fr>, strings: Seq<String>, i: int)
    ensures
        values_of(fields).len() == fields.len(),
        0 <= i < fields.len() ==> values_of(fields)[i] == fields[i]@,
        texts(strings).len() == strings.len(),
        0 <= i < strings.len() ==> texts(strings)[i] == strings[i]@,
{
}

/// Cells are read in their order, whether for what was recorded in them or for what an assignment
/// has there.
pub proof fn lemma_cells_in_order(env: Assignment, cells: Seq<AssignedCell>, i: int)
    ensures
        cell_fields(cells).len() == cells.len(),
        env_fields(env, cells).len() == cells.len(),
        cell_raws(env, cells).len() == cells.len(),
        0 <= i < cells.len() ==> {
            &&& cell_fields(cells)[i] == cells[i].value@
            &&& env_fields(env, cells)[i] == env.cell(cells[i].cell)
            &&& (env_fields(env, cells)[i] - cell_raws(env, cells)[i]) % modulus() == 0
        },
{
    if 0 <= i < cells.len() {
        let c = cells[i].cell;
        lemma_at_range(env, c.region as int, c.column, c.offset as int);
        lemma_centered_congruent(env.cell(c));
    }
}

/// A name's two field elements are the halves of the digest of what is hashed for it, each with
/// its least significant byte first.
pub proof fn lemma_identity_is_the_digest(name: Seq<char>)
    ensures
        identity(name).len() == 2,
        blake3_digest(identity_bytes(name)).len() == 32 ==> le_bytes(identity(name)[0], 16)
            + le_bytes(identity(name)[1], 16) == blake3_digest(identity_bytes(name)),
{
    if blake3_digest(identity_bytes(name)).len() == 32 {
        lemma_digest_limbs_in_order(blake3_digest(identity_bytes(name)));
    }
}

/// The nonlinear step of the hash is the fifth power.
pub proof fn lemma_fifth_power(x: int)
    ensures
        fifth_power(x) == pow(x, 5),
{
    reveal_with_fuel(pow, 6);
    assert(x * x * (x * x) * x == x * (x * (x * (x * (x * 1))))) by (nonlinear_arith);
}

} // verus!
