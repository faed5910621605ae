//! The bytes of a shape determine the shape.
use vstd::prelude::*;
use vstd::string::*;
use vstd::utf8::{encode_utf8, encode_utf8_decode_utf8, is_ascii_chars, is_ascii_chars_encode_utf8};

use crate::assembler::semantics::{RegisterRef, Step};
use crate::chips::layer_norm::Domain;
use crate::chips::poseidon_boundary::descriptor::{Boundary, BOUNDARY_COMMITMENT_SCHEMA_VERSION};
use crate::encode::{
    le_bytes, lemma_byte_sized_64, lemma_le_unambiguous, lemma_same_split, unsigned_bits,
};
use crate::isa::Operation;
use crate::program_circuit::encoding::{
    bool_byte, concat, descriptor_bytes, domain_bytes, eltwise_byte, i64_bytes, list_bytes,
    operation_bytes, reduce_byte, register_bytes, role_byte, step_bytes, string_bytes, usize_bytes,
    usizes_bytes,
};
use crate::program_circuit::params::{
    entry_bytes, layout_tag, output_bytes, shape_tag, weights_bytes, CircuitShape,
};

verus! {

/// A length that eight bytes can write.
pub open spec fn countable(n: nat) -> bool {
    n < 0x1_0000_0000_0000_0000
}

/// Items can be read back from the front of a byte string.
pub open spec fn unambiguous<A>(f: spec_fn(A) -> Seq<u8>, ok: spec_fn(A) -> bool) -> bool {
    forall|x: A, y: A, s: Seq<u8>, t: Seq<u8>|
        #![trigger f(x) + s, f(y) + t]
        ok(x) && ok(y) && f(x) + s == f(y) + t ==> x == y && s == t
}

pub open spec fn all_ok<A>(ok: spec_fn(A) -> bool, xs: Seq<A>) -> bool {
    forall|i: int| 0 <= i < xs.len() ==> ok(#[trigger] xs[i])
}

proof fn lemma_assoc(a: Seq<u8>, b: Seq<u8>, c: Seq<u8>)
    ensures
        a + b + c == a + (b + c),
{
    assert(a + b + c =~= a + (b + c));
}

/// Seven parts and a rest, taken apart from the front.
proof fn lemma_assoc7(
    a: Seq<u8>,
    b: Seq<u8>,
    c: Seq<u8>,
    d: Seq<u8>,
    e: Seq<u8>,
    f: Seq<u8>,
    g: Seq<u8>,
    s: Seq<u8>,
)
    ensures
        a + b + c + d + e + f + g + s == a + (b + (c + (d + (e + (f + (g + s)))))),
{
    lemma_assoc(a + b + c + d + e + f, g, s);
    lemma_assoc(a + b + c + d + e, f, g + s);
    lemma_assoc(a + b + c + d, e, f + (g + s));
    lemma_assoc(a + b + c, d, e + (f + (g + s)));
    lemma_assoc(a + b, c, d + (e + (f + (g + s))));
    lemma_assoc(a, b, c + (d + (e + (f + (g + s)))));
}

/// The first item of a concatenation.
proof fn lemma_concat_front<A>(f: spec_fn(A) -> Seq<u8>, xs: Seq<A>)
    requires
        xs.len() > 0,
    ensures
        concat(f, xs) == f(xs[0]) + concat(f, xs.skip(1)),
    decreases xs.len(),
{
    let rest = xs.skip(1);
    if xs.len() == 1 {
        assert(xs.drop_last() =~= Seq::empty());
        assert(rest =~= Seq::empty());
        assert(concat(f, xs) =~= f(xs[0]) + concat(f, rest));
    } else {
        lemma_concat_front(f, xs.drop_last());
        assert(xs.drop_last().skip(1) =~= rest.drop_last());
        assert(rest.last() == xs.last());
        lemma_assoc(f(xs[0]), concat(f, rest.drop_last()), f(xs.last()));
    }
}

proof fn lemma_concat_unambiguous<A>(
    f: spec_fn(A) -> Seq<u8>,
    ok: spec_fn(A) -> bool,
    xs: Seq<A>,
    ys: Seq<A>,
    s: Seq<u8>,
    t: Seq<u8>,
)
    requires
        unambiguous(f, ok),
        all_ok(ok, xs),
        all_ok(ok, ys),
        xs.len() == ys.len(),
        concat(f, xs) + s == concat(f, ys) + t,
    ensures
        xs == ys,
        s == t,
    decreases xs.len(),
{
    if xs.len() == 0 {
        assert(xs =~= ys);
        assert(concat(f, xs) + s =~= s);
        assert(concat(f, ys) + t =~= t);
    } else {
        lemma_concat_front(f, xs);
        lemma_concat_front(f, ys);
        let (xr, yr) = (xs.skip(1), ys.skip(1));
        lemma_assoc(f(xs[0]), concat(f, xr), s);
        lemma_assoc(f(ys[0]), concat(f, yr), t);
        assert(ok(xs[0]) && ok(ys[0]));
        assert(f(xs[0]) + (concat(f, xr) + s) == f(ys[0]) + (concat(f, yr) + t));
        lemma_concat_unambiguous(f, ok, xr, yr, s, t);
        assert(xs =~= seq![xs[0]] + xr);
        assert(ys =~= seq![ys[0]] + yr);
    }
}

proof fn lemma_usize_unambiguous(v: int, w: int, s: Seq<u8>, t: Seq<u8>)
    requires
        0 <= v < 0x1_0000_0000_0000_0000,
        0 <= w < 0x1_0000_0000_0000_0000,
        le_bytes(v, 8) + s == le_bytes(w, 8) + t,
    ensures
        v == w,
        s == t,
{
    lemma_byte_sized_64(v);
    lemma_byte_sized_64(w);
    lemma_le_unambiguous(v, w, 8, s, t);
}

/// A list can be read back from the front of a byte string.
proof fn lemma_list_unambiguous<A>(
    f: spec_fn(A) -> Seq<u8>,
    ok: spec_fn(A) -> bool,
    xs: Seq<A>,
    ys: Seq<A>,
    s: Seq<u8>,
    t: Seq<u8>,
)
    requires
        unambiguous(f, ok),
        all_ok(ok, xs),
        all_ok(ok, ys),
        countable(xs.len()),
        countable(ys.len()),
        list_bytes(f, xs) + s == list_bytes(f, ys) + t,
    ensures
        xs == ys,
        s == t,
{
    let (hx, hy) = (usize_bytes(xs.len() as int), usize_bytes(ys.len() as int));
    lemma_assoc(hx, concat(f, xs), s);
    lemma_assoc(hy, concat(f, ys), t);
    lemma_usize_unambiguous(
        xs.len() as int,
        ys.len() as int,
        concat(f, xs) + s,
        concat(f, ys) + t,
    );
    lemma_concat_unambiguous(f, ok, xs, ys, s, t);
}

proof fn lemma_usizes_unambiguous(xs: Seq<usize>, ys: Seq<usize>, s: Seq<u8>, t: Seq<u8>)
    requires
        countable(xs.len()),
        countable(ys.len()),
        usizes_bytes(xs) + s == usizes_bytes(ys) + t,
    ensures
        xs == ys,
        s == t,
{
    let f = |v: usize| usize_bytes(v as int);
    let ok = |v: usize| true;
    assert forall|x: usize, y: usize, u: Seq<u8>, v: Seq<u8>|
        #![trigger f(x) + u, f(y) + v]
        ok(x) && ok(y) && f(x) + u == f(y) + v implies x == y && u == v by {
        lemma_usize_unambiguous(x as int, y as int, u, v);
    }
    lemma_list_unambiguous(f, ok, xs, ys, s, t);
}

proof fn lemma_string_unambiguous(a: Seq<char>, b: Seq<char>, s: Seq<u8>, t: Seq<u8>)
    requires
        countable(encode_utf8(a).len()),
        countable(encode_utf8(b).len()),
        string_bytes(a) + s == string_bytes(b) + t,
    ensures
        a == b,
        s == t,
{
    let (ea, eb) = (encode_utf8(a), encode_utf8(b));
    lemma_assoc(usize_bytes(ea.len() as int), ea, s);
    lemma_assoc(usize_bytes(eb.len() as int), eb, t);
    lemma_usize_unambiguous(ea.len() as int, eb.len() as int, ea + s, eb + t);
    lemma_same_split(ea, s, eb, t);
    encode_utf8_decode_utf8(a);
    encode_utf8_decode_utf8(b);
}

/// The lengths of a name's bytes can be counted.
pub open spec fn countable_name(name: Seq<char>) -> bool {
    countable(encode_utf8(name).len())
}

proof fn lemma_strings_unambiguous(
    xs: Seq<Seq<char>>,
    ys: Seq<Seq<char>>,
    s: Seq<u8>,
    t: Seq<u8>,
)
    requires
        countable(xs.len()),
        countable(ys.len()),
        all_ok(|n: Seq<char>| countable_name(n), xs),
        all_ok(|n: Seq<char>| countable_name(n), ys),
        list_bytes(|n: Seq<char>| string_bytes(n), xs) + s == list_bytes(
            |n: Seq<char>| string_bytes(n),
            ys,
        ) + t,
    ensures
        xs == ys,
        s == t,
{
    let f = |n: Seq<char>| string_bytes(n);
    let ok = |n: Seq<char>| countable_name(n);
    assert forall|x: Seq<char>, y: Seq<char>, u: Seq<u8>, v: Seq<u8>|
        #![trigger f(x) + u, f(y) + v]
        ok(x) && ok(y) && f(x) + u == f(y) + v implies x == y && u == v by {
        lemma_string_unambiguous(x, y, u, v);
    }
    lemma_list_unambiguous(f, ok, xs, ys, s, t);
}

/// The lengths of a descriptor's parts can be counted.
pub open spec fn countable_boundary(b: Boundary) -> bool {
    &&& countable_name(b.register_id)
    &&& countable(b.edge_ids.len())
    &&& countable(b.graph_output_names.len())
    &&& all_ok(|n: Seq<char>| countable_name(n), b.edge_ids)
    &&& all_ok(|n: Seq<char>| countable_name(n), b.graph_output_names)
}

/// A descriptor can be read back from the front of a byte string.
pub proof fn lemma_descriptor_unambiguous(a: Boundary, b: Boundary, s: Seq<u8>, t: Seq<u8>)
    requires
        countable_boundary(a),
        countable_boundary(b),
        descriptor_bytes(a) + s == descriptor_bytes(b) + t,
    ensures
        a == b,
        s == t,
{
    let f = |n: Seq<char>| string_bytes(n);
    let version = le_bytes(BOUNDARY_COMMITMENT_SCHEMA_VERSION as int, 4);
    let a5 = le_bytes(a.quantization_scale as int, 8) + s;
    let a4 = usize_bytes(a.element_count as int) + a5;
    let a3 = list_bytes(f, a.graph_output_names) + a4;
    let a2 = list_bytes(f, a.edge_ids) + a3;
    let a1 = string_bytes(a.register_id) + a2;
    let b5 = le_bytes(b.quantization_scale as int, 8) + t;
    let b4 = usize_bytes(b.element_count as int) + b5;
    let b3 = list_bytes(f, b.graph_output_names) + b4;
    let b2 = list_bytes(f, b.edge_ids) + b3;
    let b1 = string_bytes(b.register_id) + b2;
    lemma_assoc7(
        version,
        seq![role_byte(a.role)],
        string_bytes(a.register_id),
        list_bytes(f, a.edge_ids),
        list_bytes(f, a.graph_output_names),
        usize_bytes(a.element_count as int),
        le_bytes(a.quantization_scale as int, 8),
        s,
    );
    lemma_assoc7(
        version,
        seq![role_byte(b.role)],
        string_bytes(b.register_id),
        list_bytes(f, b.edge_ids),
        list_bytes(f, b.graph_output_names),
        usize_bytes(b.element_count as int),
        le_bytes(b.quantization_scale as int, 8),
        t,
    );
    lemma_same_split(
        version,
        seq![role_byte(a.role)] + a1,
        version,
        seq![role_byte(b.role)] + b1,
    );
    lemma_same_split(seq![role_byte(a.role)], a1, seq![role_byte(b.role)], b1);
    assert(seq![role_byte(a.role)][0] == seq![role_byte(b.role)][0]);
    lemma_string_unambiguous(a.register_id, b.register_id, a2, b2);
    lemma_strings_unambiguous(a.edge_ids, b.edge_ids, a3, b3);
    lemma_strings_unambiguous(a.graph_output_names, b.graph_output_names, a4, b4);
    lemma_usize_unambiguous(a.element_count as int, b.element_count as int, a5, b5);
    lemma_usize_unambiguous(a.quantization_scale as int, b.quantization_scale as int, s, t);
    assert(a =~= b);
}

proof fn lemma_register_unambiguous(a: RegisterRef, b: RegisterRef, s: Seq<u8>, t: Seq<u8>)
    requires
        register_bytes(a) + s == register_bytes(b) + t,
    ensures
        a == b,
        s == t,
{
    let (ta, ia) = match a {
        RegisterRef::Input(i) => (0u8, i as int),
        RegisterRef::Weight(i) => (1u8, i as int),
        RegisterRef::Virtual(i) => (2u8, i as int),
    };
    let (tb, ib) = match b {
        RegisterRef::Input(i) => (0u8, i as int),
        RegisterRef::Weight(i) => (1u8, i as int),
        RegisterRef::Virtual(i) => (2u8, i as int),
    };
    lemma_tagged(ta, tb, usize_bytes(ia), usize_bytes(ib), s, t);
    lemma_usize_unambiguous(ia, ib, s, t);
}

/// Tagged encodings agree in their tags.
proof fn lemma_tagged(a: u8, b: u8, x: Seq<u8>, y: Seq<u8>, s: Seq<u8>, t: Seq<u8>)
    requires
        seq![a] + x + s == seq![b] + y + t,
    ensures
        a == b,
        x + s == y + t,
{
    lemma_assoc(seq![a], x, s);
    lemma_assoc(seq![b], y, t);
    lemma_same_split(seq![a], x + s, seq![b], y + t);
    assert(seq![a][0] == seq![b][0]);
}

pub open spec fn operation_tag(o: Operation) -> u8 {
    match o {
        Operation::DotGeneral { m, n, k, batch_dims, trans_a, trans_b } => 0,
        Operation::Softmax { axis_dim } => 1,
        Operation::Gelu => 2,
        Operation::LayerNorm { dim, epsilon_milli } => 3,
        Operation::RmsNorm { dim, epsilon_milli } => 4,
        Operation::Eltwise { op } => 5,
        Operation::Reduce { op, axis } => 6,
        Operation::EmbedLookup { table_size, embed_dim } => 7,
        Operation::PatchEmbed { patch_len, embed_dim } => 8,
    }
}

/// What follows an operation's tag.
pub open spec fn operation_tail(o: Operation) -> Seq<u8> {
    operation_bytes(o).skip(1)
}

proof fn lemma_operation_tag(o: Operation)
    ensures
        operation_bytes(o) == seq![operation_tag(o)] + operation_tail(o),
{
    assert(operation_bytes(o)[0] == operation_tag(o));
    assert(operation_bytes(o) =~= seq![operation_tag(o)] + operation_tail(o));
}

pub open spec fn countable_operation(o: Operation) -> bool {
    o matches Operation::DotGeneral { m, n, k, batch_dims, trans_a, trans_b } ==> countable(
        batch_dims.len(),
    )
}

proof fn lemma_pair_unambiguous(v: int, e: int, w: int, g: int, s: Seq<u8>, t: Seq<u8>)
    requires
        0 <= v < 0x1_0000_0000_0000_0000,
        0 <= w < 0x1_0000_0000_0000_0000,
        0 <= e < 0x1_0000_0000_0000_0000,
        0 <= g < 0x1_0000_0000_0000_0000,
        le_bytes(v, 8) + le_bytes(e, 8) + s == le_bytes(w, 8) + le_bytes(g, 8) + t,
    ensures
        v == w && e == g,
        s == t,
{
    lemma_assoc(le_bytes(v, 8), le_bytes(e, 8), s);
    lemma_assoc(le_bytes(w, 8), le_bytes(g, 8), t);
    lemma_usize_unambiguous(v, w, le_bytes(e, 8) + s, le_bytes(g, 8) + t);
    lemma_usize_unambiguous(e, g, s, t);
}

/// What follows the tag of a matrix product.
proof fn lemma_product_unambiguous(a: Operation, b: Operation, s: Seq<u8>, t: Seq<u8>)
    requires
        a is DotGeneral,
        b is DotGeneral,
        countable_operation(a),
        countable_operation(b),
        operation_tail(a) + s == operation_tail(b) + t,
    ensures
        a == b,
        s == t,
{
    let sa = seq![a->m, a->n, a->DotGeneral_k];
    let sb = seq![b->m, b->n, b->DotGeneral_k];
    let fa = seq![bool_byte(a->trans_a), bool_byte(a->trans_b)];
    let fb = seq![bool_byte(b->trans_a), bool_byte(b->trans_b)];
    let (ua, ub) = (usizes_bytes(sa), usizes_bytes(sb));
    let (da, db) = (usizes_bytes(a->batch_dims), usizes_bytes(b->batch_dims));
    assert(operation_tail(a) =~= ua + da + fa);
    assert(operation_tail(b) =~= ub + db + fb);
    lemma_assoc3(ua, da, fa, s);
    lemma_assoc3(ub, db, fb, t);
    lemma_usizes_unambiguous(sa, sb, da + (fa + s), db + (fb + t));
    lemma_usizes_unambiguous(a->batch_dims, b->batch_dims, fa + s, fb + t);
    lemma_same_split(fa, s, fb, t);
    assert(sa[0] == sb[0] && sa[1] == sb[1] && sa[2] == sb[2]);
    assert(fa[0] == fb[0] && fa[1] == fb[1]);
}

proof fn lemma_assoc3(a: Seq<u8>, b: Seq<u8>, c: Seq<u8>, s: Seq<u8>)
    ensures
        a + b + c + s == a + (b + (c + s)),
{
    lemma_assoc(a + b, c, s);
    lemma_assoc(a, b, c + s);
}

/// What follows the tag of an operation with two sizes.
proof fn lemma_sizes_unambiguous(
    x: usize,
    y: usize,
    z: usize,
    w: usize,
    s: Seq<u8>,
    t: Seq<u8>,
)
    requires
        usizes_bytes(seq![x, y]) + s == usizes_bytes(seq![z, w]) + t,
    ensures
        x == z && y == w,
        s == t,
{
    lemma_usizes_unambiguous(seq![x, y], seq![z, w], s, t);
    assert(seq![x, y][0] == seq![z, w][0]);
    assert(seq![x, y][1] == seq![z, w][1]);
}

proof fn lemma_operation_unambiguous(a: Operation, b: Operation, s: Seq<u8>, t: Seq<u8>)
    requires
        countable_operation(a),
        countable_operation(b),
        operation_bytes(a) + s == operation_bytes(b) + t,
    ensures
        a == b,
        s == t,
{
    lemma_operation_tag(a);
    lemma_operation_tag(b);
    let (x, y) = (operation_tail(a), operation_tail(b));
    lemma_tagged(operation_tag(a), operation_tag(b), x, y, s, t);
    match a {
        Operation::DotGeneral { m, n, k, batch_dims, trans_a, trans_b } => {
            lemma_product_unambiguous(a, b, s, t);
        },
        Operation::Softmax { axis_dim } => {
            let d2 = b->axis_dim;
            assert(x =~= usize_bytes(axis_dim as int));
            assert(y =~= usize_bytes(d2 as int));
            lemma_usize_unambiguous(axis_dim as int, d2 as int, s, t);
        },
        Operation::Gelu => {
            assert(x + s =~= s);
            assert(y + t =~= t);
        },
        Operation::LayerNorm { dim, epsilon_milli } => {
            let (d2, e2) = (b->LayerNorm_dim, b->LayerNorm_epsilon_milli);
            assert(x =~= usize_bytes(dim as int) + le_bytes(epsilon_milli as int, 8));
            assert(y =~= usize_bytes(d2 as int) + le_bytes(e2 as int, 8));
            lemma_pair_unambiguous(dim as int, epsilon_milli as int, d2 as int, e2 as int, s, t);
        },
        Operation::RmsNorm { dim, epsilon_milli } => {
            let (d2, e2) = (b->RmsNorm_dim, b->RmsNorm_epsilon_milli);
            assert(x =~= usize_bytes(dim as int) + le_bytes(epsilon_milli as int, 8));
            assert(y =~= usize_bytes(d2 as int) + le_bytes(e2 as int, 8));
            lemma_pair_unambiguous(dim as int, epsilon_milli as int, d2 as int, e2 as int, s, t);
        },
        Operation::Eltwise { op } => {
            let o2 = b->Eltwise_op;
            assert(x =~= seq![eltwise_byte(op)]);
            assert(y =~= seq![eltwise_byte(o2)]);
            lemma_same_split(x, s, y, t);
            assert(x[0] == y[0]);
        },
        Operation::Reduce { op, axis } => {
            let (o2, x2) = (b->Reduce_op, b->axis);
            assert(x =~= seq![reduce_byte(op)] + usize_bytes(axis as int));
            assert(y =~= seq![reduce_byte(o2)] + usize_bytes(x2 as int));
            lemma_tagged(
                reduce_byte(op),
                reduce_byte(o2),
                usize_bytes(axis as int),
                usize_bytes(x2 as int),
                s,
                t,
            );
            lemma_usize_unambiguous(axis as int, x2 as int, s, t);
        },
        Operation::EmbedLookup { table_size, embed_dim } => {
            let (t2, e2) = (b->table_size, b->EmbedLookup_embed_dim);
            assert(x =~= usizes_bytes(seq![table_size, embed_dim]));
            assert(y =~= usizes_bytes(seq![t2, e2]));
            lemma_sizes_unambiguous(table_size, embed_dim, t2, e2, s, t);
        },
        Operation::PatchEmbed { patch_len, embed_dim } => {
            let (p2, e2) = (b->patch_len, b->PatchEmbed_embed_dim);
            assert(x =~= usizes_bytes(seq![patch_len, embed_dim]));
            assert(y =~= usizes_bytes(seq![p2, e2]));
            lemma_sizes_unambiguous(patch_len, embed_dim, p2, e2, s, t);
        },
    }
}

pub open spec fn countable_step(s: Step) -> bool {
    countable(s.inputs.len()) && countable_operation(s.operation)
}

/// No instruction's bytes begin another's.
pub proof fn lemma_step_unambiguous(a: Step, b: Step, s: Seq<u8>, t: Seq<u8>)
    requires
        countable_step(a),
        countable_step(b),
        step_bytes(a) + s == step_bytes(b) + t,
    ensures
        a == b,
        s == t,
{
    let f = |r: RegisterRef| register_bytes(r);
    let ok = |r: RegisterRef| true;
    assert forall|x: RegisterRef, y: RegisterRef, u: Seq<u8>, v: Seq<u8>|
        #![trigger f(x) + u, f(y) + v]
        ok(x) && ok(y) && f(x) + u == f(y) + v implies x == y && u == v by {
        lemma_register_unambiguous(x, y, u, v);
    }
    let (ra, rb) = (operation_bytes(a.operation) + s, operation_bytes(b.operation) + t);
    lemma_assoc(list_bytes(f, a.inputs), operation_bytes(a.operation), s);
    lemma_assoc(list_bytes(f, b.inputs), operation_bytes(b.operation), t);
    lemma_list_unambiguous(f, ok, a.inputs, b.inputs, ra, rb);
    lemma_operation_unambiguous(a.operation, b.operation, s, t);
    assert(a =~= b);
}

proof fn lemma_weights_unambiguous(a: Seq<i64>, b: Seq<i64>, s: Seq<u8>, t: Seq<u8>)
    requires
        countable(a.len()),
        countable(b.len()),
        weights_bytes(a) + s == weights_bytes(b) + t,
    ensures
        a == b,
        s == t,
{
    let f = |v: i64| i64_bytes(v);
    let ok = |v: i64| true;
    assert forall|x: i64, y: i64, u: Seq<u8>, v: Seq<u8>|
        #![trigger f(x) + u, f(y) + v]
        ok(x) && ok(y) && f(x) + u == f(y) + v implies x == y && u == v by {
        lemma_usize_unambiguous(unsigned_bits(x as int), unsigned_bits(y as int), u, v);
    }
    lemma_list_unambiguous(f, ok, a, b, s, t);
}

pub open spec fn countable_domain(d: Domain) -> bool {
    d matches Domain::RawAnchors(anchors) ==> countable(anchors.len())
}

proof fn lemma_domain_unambiguous(a: Domain, b: Domain, s: Seq<u8>, t: Seq<u8>)
    requires
        countable_domain(a),
        countable_domain(b),
        domain_bytes(a) + s == domain_bytes(b) + t,
    ensures
        a == b,
        s == t,
{
    match (a, b) {
        (
            Domain::Range { min_bits, max_bits, n },
            Domain::Range { min_bits: i2, max_bits: a2, n: n2 },
        ) => {
            let (ra, rb) = (usize_bytes(n as int) + s, usize_bytes(n2 as int) + t);
            let xa = le_bytes(min_bits as int, 8) + le_bytes(max_bits as int, 8) + ra;
            let xb = le_bytes(i2 as int, 8) + le_bytes(a2 as int, 8) + rb;
            assert(domain_bytes(a) + s =~= seq![0u8] + xa);
            assert(domain_bytes(b) + t =~= seq![0u8] + xb);
            lemma_same_split(seq![0u8], xa, seq![0u8], xb);
            lemma_pair_unambiguous(
                min_bits as int,
                max_bits as int,
                i2 as int,
                a2 as int,
                ra,
                rb,
            );
            lemma_usize_unambiguous(n as int, n2 as int, s, t);
        },
        (Domain::RawAnchors(x), Domain::RawAnchors(y)) => {
            lemma_tagged(1, 1, weights_bytes(x), weights_bytes(y), s, t);
            lemma_weights_unambiguous(x, y, s, t);
        },
        _ => {
            assert((domain_bytes(a) + s)[0] == domain_bytes(a)[0]);
            assert((domain_bytes(b) + t)[0] == domain_bytes(b)[0]);
        },
    }
}

proof fn lemma_output_unambiguous(
    a: (usize, Boundary),
    b: (usize, Boundary),
    s: Seq<u8>,
    t: Seq<u8>,
)
    requires
        countable_boundary(a.1),
        countable_boundary(b.1),
        output_bytes(a) + s == output_bytes(b) + t,
    ensures
        a == b,
        s == t,
{
    lemma_assoc(usize_bytes(a.0 as int), descriptor_bytes(a.1), s);
    lemma_assoc(usize_bytes(b.0 as int), descriptor_bytes(b.1), t);
    lemma_usize_unambiguous(
        a.0 as int,
        b.0 as int,
        descriptor_bytes(a.1) + s,
        descriptor_bytes(b.1) + t,
    );
    lemma_descriptor_unambiguous(a.1, b.1, s, t);
}

proof fn lemma_entry_unambiguous(
    a: ((usize, u64), Domain),
    b: ((usize, u64), Domain),
    s: Seq<u8>,
    t: Seq<u8>,
)
    requires
        countable_domain(a.1),
        countable_domain(b.1),
        entry_bytes(a) + s == entry_bytes(b) + t,
    ensures
        a == b,
        s == t,
{
    let ha = usize_bytes(a.0.0 as int) + le_bytes(a.0.1 as int, 8);
    let hb = usize_bytes(b.0.0 as int) + le_bytes(b.0.1 as int, 8);
    lemma_assoc(ha, domain_bytes(a.1), s);
    lemma_assoc(hb, domain_bytes(b.1), t);
    lemma_pair_unambiguous(
        a.0.0 as int,
        a.0.1 as int,
        b.0.0 as int,
        b.0.1 as int,
        domain_bytes(a.1) + s,
        domain_bytes(b.1) + t,
    );
    lemma_domain_unambiguous(a.1, b.1, s, t);
}

/// The two kinds of layout differ in a byte.
proof fn lemma_layout_tag(a: bool, b: bool, s: Seq<u8>, t: Seq<u8>)
    requires
        layout_tag(a) + s == layout_tag(b) + t,
    ensures
        a == b,
        s == t,
{
    let one = "public-instances-v1:inputs,weights,selected-outputs\0";
    let two = "public-instances-v2:leaf,input-commitments,output-commitments,weights\0";
    reveal_strlit("public-instances-v1:inputs,weights,selected-outputs\0");
    reveal_strlit("public-instances-v2:leaf,input-commitments,output-commitments,weights\0");
    assert(is_ascii_chars(one@));
    assert(is_ascii_chars(two@));
    is_ascii_chars_encode_utf8(one@);
    is_ascii_chars_encode_utf8(two@);
    if a != b {
        assert(encode_utf8(one@)[18] == 49u8);
        assert(encode_utf8(two@)[18] == 50u8);
        assert((layout_tag(a) + s)[18] == layout_tag(a)[18]);
        assert((layout_tag(b) + t)[18] == layout_tag(b)[18]);
    } else {
        lemma_same_split(layout_tag(a), s, layout_tag(b), t);
    }
}

impl CircuitShape {
    /// The lengths of the shape's parts can be counted.
    pub open spec fn countable(self) -> bool {
        &&& countable(self.input_shapes.len())
        &&& countable(self.weight_shapes.len())
        &&& countable(self.public_outputs.len())
        &&& countable(self.boundary_inputs.len())
        &&& countable(self.boundary_outputs.len())
        &&& countable(self.fixed_public_weights.len())
        &&& countable(self.steps.len())
        &&& countable(self.domains.len())
        &&& all_ok(|b: Boundary| countable_boundary(b), self.boundary_inputs)
        &&& all_ok(|o: (usize, Boundary)| countable_boundary(o.1), self.boundary_outputs)
        &&& all_ok(|w: Seq<i64>| countable(w.len()), self.fixed_public_weights)
        &&& all_ok(|s: Step| countable_step(s), self.steps)
        &&& all_ok(|e: ((usize, u64), Domain)| countable_domain(e.1), self.domains)
    }
}

proof fn lemma_parts_unambiguous()
    ensures
        unambiguous(|x: Boundary| descriptor_bytes(x), |x: Boundary| countable_boundary(x)),
        unambiguous(
            |o: (usize, Boundary)| output_bytes(o),
            |o: (usize, Boundary)| countable_boundary(o.1),
        ),
        unambiguous(|w: Seq<i64>| weights_bytes(w), |w: Seq<i64>| countable(w.len())),
        unambiguous(|s: Step| step_bytes(s), |s: Step| countable_step(s)),
        unambiguous(
            |e: ((usize, u64), Domain)| entry_bytes(e),
            |e: ((usize, u64), Domain)| countable_domain(e.1),
        ),
{
    let f1 = |x: Boundary| descriptor_bytes(x);
    assert forall|x: Boundary, y: Boundary, u: Seq<u8>, v: Seq<u8>|
        #![trigger f1(x) + u, f1(y) + v]
        countable_boundary(x) && countable_boundary(y) && f1(x) + u == f1(y) + v implies x == y
        && u == v by {
        lemma_descriptor_unambiguous(x, y, u, v);
    }
    let f2 = |o: (usize, Boundary)| output_bytes(o);
    assert forall|x: (usize, Boundary), y: (usize, Boundary), u: Seq<u8>, v: Seq<u8>|
        #![trigger f2(x) + u, f2(y) + v]
        countable_boundary(x.1) && countable_boundary(y.1) && f2(x) + u == f2(y) + v implies x
        == y && u == v by {
        lemma_output_unambiguous(x, y, u, v);
    }
    let f3 = |w: Seq<i64>| weights_bytes(w);
    assert forall|x: Seq<i64>, y: Seq<i64>, u: Seq<u8>, v: Seq<u8>|
        #![trigger f3(x) + u, f3(y) + v]
        countable(x.len()) && countable(y.len()) && f3(x) + u == f3(y) + v implies x == y && u
        == v by {
        lemma_weights_unambiguous(x, y, u, v);
    }
    let f4 = |s: Step| step_bytes(s);
    assert forall|x: Step, y: Step, u: Seq<u8>, v: Seq<u8>|
        #![trigger f4(x) + u, f4(y) + v]
        countable_step(x) && countable_step(y) && f4(x) + u == f4(y) + v implies x == y && u
        == v by {
        lemma_step_unambiguous(x, y, u, v);
    }
    let f5 = |e: ((usize, u64), Domain)| entry_bytes(e);
    assert forall|
        x: ((usize, u64), Domain),
        y: ((usize, u64), Domain),
        u: Seq<u8>,
        v: Seq<u8>,
    |
        #![trigger f5(x) + u, f5(y) + v]
        countable_domain(x.1) && countable_domain(y.1) && f5(x) + u == f5(y) + v implies x == y
        && u == v by {
        lemma_entry_unambiguous(x, y, u, v);
    }
}

impl CircuitShape {
    /// What follows the count of a leaf's values.
    spec fn tail(self) -> Seq<u8> {
        list_bytes(|b: Boundary| descriptor_bytes(b), self.boundary_inputs) + (list_bytes(
            |o: (usize, Boundary)| output_bytes(o),
            self.boundary_outputs,
        ) + (list_bytes(|w: Seq<i64>| weights_bytes(w), self.fixed_public_weights) + (list_bytes(
            |s: Step| step_bytes(s),
            self.steps,
        ) + (list_bytes(|e: ((usize, u64), Domain)| entry_bytes(e), self.domains) + Seq::empty()))))
    }

    proof fn lemma_tail(self)
        ensures
            self.bytes() == shape_tag() + (layout_tag(self.bounded()) + (usizes_bytes(
                self.input_shapes,
            ) + (usizes_bytes(self.weight_shapes) + (usizes_bytes(self.public_outputs) + (
            usize_bytes(self.leaf_prefix_len as int) + self.tail()))))),
    {
        let end = Seq::<u8>::empty();
        let l1 = list_bytes(|b: Boundary| descriptor_bytes(b), self.boundary_inputs);
        let l2 = list_bytes(|o: (usize, Boundary)| output_bytes(o), self.boundary_outputs);
        let l3 = list_bytes(|w: Seq<i64>| weights_bytes(w), self.fixed_public_weights);
        let l4 = list_bytes(|s: Step| step_bytes(s), self.steps);
        let l5 = list_bytes(|e: ((usize, u64), Domain)| entry_bytes(e), self.domains);
        let h = shape_tag() + layout_tag(self.bounded()) + usizes_bytes(self.input_shapes)
            + usizes_bytes(self.weight_shapes) + usizes_bytes(self.public_outputs) + usize_bytes(
            self.leaf_prefix_len as int,
        );
        assert(self.bytes() =~= h + l1 + l2 + l3 + l4 + l5 + end);
        lemma_assoc(h + l1 + l2 + l3 + l4, l5, end);
        lemma_assoc(h + l1 + l2 + l3, l4, l5 + end);
        lemma_assoc(h + l1 + l2, l3, l4 + (l5 + end));
        lemma_assoc(h + l1, l2, l3 + (l4 + (l5 + end)));
        lemma_assoc(h, l1, l2 + (l3 + (l4 + (l5 + end))));
        lemma_assoc7(
            shape_tag(),
            layout_tag(self.bounded()),
            usizes_bytes(self.input_shapes),
            usizes_bytes(self.weight_shapes),
            usizes_bytes(self.public_outputs),
            usize_bytes(self.leaf_prefix_len as int),
            end,
            self.tail(),
        );
        assert(h + end =~= h);
        assert(end + self.tail() =~= self.tail());
    }
}

/// Shapes whose tails have the same bytes agree in what the tails hold.
proof fn lemma_tails(a: CircuitShape, b: CircuitShape)
    requires
        a.countable(),
        b.countable(),
        a.tail() == b.tail(),
    ensures
        a.boundary_inputs == b.boundary_inputs,
        a.boundary_outputs == b.boundary_outputs,
        a.fixed_public_weights == b.fixed_public_weights,
        a.steps == b.steps,
        a.domains == b.domains,
{
    lemma_parts_unambiguous();
    let f1 = |x: Boundary| descriptor_bytes(x);
    let ok1 = |x: Boundary| countable_boundary(x);
    let f2 = |o: (usize, Boundary)| output_bytes(o);
    let ok2 = |o: (usize, Boundary)| countable_boundary(o.1);
    let f3 = |w: Seq<i64>| weights_bytes(w);
    let ok3 = |w: Seq<i64>| countable(w.len());
    let f4 = |s: Step| step_bytes(s);
    let ok4 = |s: Step| countable_step(s);
    let f5 = |e: ((usize, u64), Domain)| entry_bytes(e);
    let ok5 = |e: ((usize, u64), Domain)| countable_domain(e.1);
    let end = Seq::<u8>::empty();
    let a9 = list_bytes(f5, a.domains) + end;
    let a8 = list_bytes(f4, a.steps) + a9;
    let a7 = list_bytes(f3, a.fixed_public_weights) + a8;
    let a6 = list_bytes(f2, a.boundary_outputs) + a7;
    let b9 = list_bytes(f5, b.domains) + end;
    let b8 = list_bytes(f4, b.steps) + b9;
    let b7 = list_bytes(f3, b.fixed_public_weights) + b8;
    let b6 = list_bytes(f2, b.boundary_outputs) + b7;
    lemma_list_unambiguous(f1, ok1, a.boundary_inputs, b.boundary_inputs, a6, b6);
    lemma_list_unambiguous(f2, ok2, a.boundary_outputs, b.boundary_outputs, a7, b7);
    lemma_list_unambiguous(f3, ok3, a.fixed_public_weights, b.fixed_public_weights, a8, b8);
    lemma_list_unambiguous(f4, ok4, a.steps, b.steps, a9, b9);
    lemma_list_unambiguous(f5, ok5, a.domains, b.domains, end, end);
}

/// Shapes with the same bytes are the same: no two shapes share what the digest is taken of.
pub proof fn lemma_shape_bytes_injective(a: CircuitShape, b: CircuitShape)
    requires
        a.countable(),
        b.countable(),
        a.bytes() == b.bytes(),
    ensures
        a == b,
{
    a.lemma_tail();
    b.lemma_tail();
    let a4 = usize_bytes(a.leaf_prefix_len as int) + a.tail();
    let a3 = usizes_bytes(a.public_outputs) + a4;
    let a2 = usizes_bytes(a.weight_shapes) + a3;
    let a1 = usizes_bytes(a.input_shapes) + a2;
    let b4 = usize_bytes(b.leaf_prefix_len as int) + b.tail();
    let b3 = usizes_bytes(b.public_outputs) + b4;
    let b2 = usizes_bytes(b.weight_shapes) + b3;
    let b1 = usizes_bytes(b.input_shapes) + b2;
    lemma_same_split(
        shape_tag(),
        layout_tag(a.bounded()) + a1,
        shape_tag(),
        layout_tag(b.bounded()) + b1,
    );
    lemma_layout_tag(a.bounded(), b.bounded(), a1, b1);
    lemma_usizes_unambiguous(a.input_shapes, b.input_shapes, a2, b2);
    lemma_usizes_unambiguous(a.weight_shapes, b.weight_shapes, a3, b3);
    lemma_usizes_unambiguous(a.public_outputs, b.public_outputs, a4, b4);
    lemma_usize_unambiguous(a.leaf_prefix_len as int, b.leaf_prefix_len as int, a.tail(), b.tail());
    lemma_tails(a, b);
    assert(a =~= b);
}

} // verus!
