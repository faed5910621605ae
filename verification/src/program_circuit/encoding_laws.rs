//! How encodings are read.
use vstd::prelude::*;
use vstd::utf8::encode_utf8;

use crate::assembler::config::key_below;
use crate::assembler::semantics::{RegisterRef, Step};
use crate::chips::layer_norm::Domain;
use crate::chips::poseidon_boundary::descriptor::{Boundary, BoundaryRole};
use crate::encode::{le_bytes, lemma_le_len};
use crate::isa::{EltwiseOp, Operation, ReduceOp};
use crate::program_circuit::encoding::{
    concat, descriptor_bytes, domain_bytes, list_bytes, operation_bytes, register_bytes,
    step_bytes, string_bytes, usize_bytes, usizes_bytes,
};
use crate::program_circuit::params::{
    entry_bytes, output_bytes, weights_bytes, CircuitShape,
};
use crate::program_circuit::public::binding_bytes;

verus! {

/// Instructions are written with the number of their kind in front, in the order of the
/// instruction set, and registers, roles and operations likewise with theirs; every size is
/// written in eight bytes.
pub proof fn lemma_kinds_are_numbered(o: Operation, r: RegisterRef, v: int, s: Seq<char>)
    ensures
        operation_bytes(o)[0] == match o {
            Operation::DotGeneral { .. } => 0u8,
            Operation::Softmax { .. } => 1u8,
            Operation::Gelu => 2u8,
            Operation::LayerNorm { .. } => 3u8,
            Operation::RmsNorm { .. } => 4u8,
            Operation::Eltwise { .. } => 5u8,
            Operation::Reduce { .. } => 6u8,
            Operation::EmbedLookup { .. } => 7u8,
            Operation::PatchEmbed { .. } => 8u8,
        },
        o matches Operation::Eltwise { op } ==> operation_bytes(o)[1] == match op {
            EltwiseOp::Add => 0u8,
            EltwiseOp::Mul => 1u8,
            EltwiseOp::Relu => 2u8,
        },
        o matches Operation::Reduce { op, axis } ==> operation_bytes(o)[1] == match op {
            ReduceOp::Sum => 0u8,
            ReduceOp::Mean => 1u8,
        },
        register_bytes(r).len() == 9,
        register_bytes(r)[0] == match r {
            RegisterRef::Input(_) => 0u8,
            RegisterRef::Weight(_) => 1u8,
            RegisterRef::Virtual(_) => 2u8,
        },
        usize_bytes(v).len() == 8,
        string_bytes(s).len() == 8 + encode_utf8(s).len(),
        string_bytes(s).skip(8) == encode_utf8(s),
{
    lemma_le_len(v, 8);
    lemma_le_len(encode_utf8(s).len() as int, 8);
    match r {
        RegisterRef::Input(i) => lemma_le_len(i as int, 8),
        RegisterRef::Weight(i) => lemma_le_len(i as int, 8),
        RegisterRef::Virtual(i) => lemma_le_len(i as int, 8),
    }
    assert(string_bytes(s).skip(8) =~= encode_utf8(s));
}

/// Items are written one after the other, those in front first; a list is written after its
/// count.
pub proof fn lemma_lists_in_order<A>(f: spec_fn(A) -> Seq<u8>, xs: Seq<A>, ys: Seq<A>, x: A)
    ensures
        concat(f, xs + ys) == concat(f, xs) + concat(f, ys),
        concat(f, seq![x]) == f(x),
        list_bytes(f, xs).take(8) == le_bytes(xs.len() as int, 8),
        list_bytes(f, xs).skip(8) == concat(f, xs),
    decreases ys.len(),
{
    lemma_le_len(xs.len() as int, 8);
    assert(list_bytes(f, xs).take(8) =~= le_bytes(xs.len() as int, 8));
    assert(list_bytes(f, xs).skip(8) =~= concat(f, xs));
    if ys.len() == 0 {
        assert(xs + ys =~= xs);
        assert(concat(f, xs) + concat(f, ys) =~= concat(f, xs));
    } else {
        let rest = ys.drop_last();
        lemma_lists_in_order(f, xs, rest, x);
        assert((xs + ys).drop_last() =~= xs + rest);
        assert(concat(f, xs) + concat(f, rest) + f(ys.last()) =~= concat(f, xs) + (concat(f, rest)
            + f(ys.last())));
    }
    assert(seq![x].drop_last() =~= Seq::<A>::empty());
    reveal_with_fuel(concat, 2);
    assert(Seq::<u8>::empty() + f(x) =~= f(x));
}

/// A list of sizes is its count and then each size, in eight bytes each.
pub proof fn lemma_sizes_in_order(xs: Seq<usize>, i: int)
    ensures
        usizes_bytes(xs).len() == 8 + 8 * xs.len(),
        usizes_bytes(xs).take(8) == le_bytes(xs.len() as int, 8),
        0 <= i < xs.len() ==> usizes_bytes(xs).subrange(8 + 8 * i, 16 + 8 * i) == le_bytes(
            xs[i] as int,
            8,
        ),
{
    let f = |v: usize| usize_bytes(v as int);
    lemma_le_len(xs.len() as int, 8);
    lemma_sizes(f, xs, i);
    assert(usizes_bytes(xs).take(8) =~= le_bytes(xs.len() as int, 8));
    if 0 <= i < xs.len() {
        assert(usizes_bytes(xs).subrange(8 + 8 * i, 16 + 8 * i) =~= concat(f, xs).subrange(
            8 * i,
            8 + 8 * i,
        ));
    }
}

proof fn lemma_sizes(f: spec_fn(usize) -> Seq<u8>, xs: Seq<usize>, i: int)
    requires
        f == (|v: usize| usize_bytes(v as int)),
    ensures
        concat(f, xs).len() == 8 * xs.len(),
        0 <= i < xs.len() ==> concat(f, xs).subrange(8 * i, 8 + 8 * i) == le_bytes(
            xs[i] as int,
            8,
        ),
    decreases xs.len(),
{
    if xs.len() > 0 {
        let rest = xs.drop_last();
        lemma_sizes(f, rest, i);
        lemma_le_len(xs.last() as int, 8);
        if 0 <= i < rest.len() {
            assert(rest[i] == xs[i]);
            assert(concat(f, xs).subrange(8 * i, 8 + 8 * i) =~= concat(f, rest).subrange(
                8 * i,
                8 + 8 * i,
            ));
        } else if i == rest.len() {
            assert(concat(f, xs).subrange(8 * i, 8 + 8 * i) =~= le_bytes(xs[i] as int, 8));
        }
    }
}

/// An instruction is written as the list of the registers it reads, and then its operation.
pub proof fn lemma_step_bytes_in_order(s: Step)
    ensures
        ({
            let head = list_bytes(|r: RegisterRef| register_bytes(r), s.inputs);
            &&& step_bytes(s).take(head.len() as int) == head
            &&& step_bytes(s).skip(head.len() as int) == operation_bytes(s.operation)
        }),
{
    let head = list_bytes(|r: RegisterRef| register_bytes(r), s.inputs);
    assert(step_bytes(s).take(head.len() as int) =~= head);
    assert(step_bytes(s).skip(head.len() as int) =~= operation_bytes(s.operation));
}

/// A matrix product is written with the list of its three sizes, that of its batch dimensions, and
/// a byte for each operand that says whether it is stored transposed.
pub proof fn lemma_product_bytes_in_order(
    m: usize,
    n: usize,
    k: usize,
    batch_dims: Seq<usize>,
    trans_a: bool,
    trans_b: bool,
)
    ensures
        ({
            let o = Operation::DotGeneral { m, n, k, batch_dims, trans_a, trans_b };
            let bytes = operation_bytes(o);
            let end = 41 + 8 * batch_dims.len() as int;
            &&& bytes.len() == end + 2
            &&& bytes.subrange(9, 17) == le_bytes(m as int, 8)
            &&& bytes.subrange(17, 25) == le_bytes(n as int, 8)
            &&& bytes.subrange(25, 33) == le_bytes(k as int, 8)
            &&& bytes.subrange(33, end) == usizes_bytes(batch_dims)
            &&& bytes[end] == if trans_a { 1u8 } else { 0u8 }
            &&& bytes[end + 1] == if trans_b { 1u8 } else { 0u8 }
        }),
{
    let o = Operation::DotGeneral { m, n, k, batch_dims, trans_a, trans_b };
    let bytes = operation_bytes(o);
    let sizes = seq![m, n, k];
    let end = 41 + 8 * batch_dims.len() as int;
    lemma_sizes_in_order(sizes, 0);
    lemma_sizes_in_order(sizes, 1);
    lemma_sizes_in_order(sizes, 2);
    lemma_sizes_in_order(batch_dims, 0);
    assert(bytes.subrange(9, 17) =~= usizes_bytes(sizes).subrange(8, 16));
    assert(bytes.subrange(17, 25) =~= usizes_bytes(sizes).subrange(16, 24));
    assert(bytes.subrange(25, 33) =~= usizes_bytes(sizes).subrange(24, 32));
    assert(bytes.subrange(33, end) =~= usizes_bytes(batch_dims));
}

/// A descriptor is written as its version in four bytes, its role in one, its names, the count of
/// its tensor and the scale.
pub proof fn lemma_descriptor_bytes_in_order(b: Boundary)
    ensures
        ({
            let names = string_bytes(b.register_id) + list_bytes(
                |s: Seq<char>| string_bytes(s),
                b.edge_ids,
            ) + list_bytes(|s: Seq<char>| string_bytes(s), b.graph_output_names);
            let role = match b.role {
                BoundaryRole::Input => 1u8,
                BoundaryRole::Output => 2u8,
            };
            let bytes = descriptor_bytes(b);
            let end = 5 + names.len() as int;
            &&& bytes.len() == end + 16
            &&& bytes.take(5) == seq![1u8, 0u8, 0u8, 0u8, role]
            &&& bytes.subrange(5, end) == names
            &&& bytes.subrange(end, end + 8) == le_bytes(b.element_count as int, 8)
            &&& bytes.skip(end + 8) == le_bytes(b.quantization_scale as int, 8)
        }),
{
    let names = string_bytes(b.register_id) + list_bytes(
        |s: Seq<char>| string_bytes(s),
        b.edge_ids,
    ) + list_bytes(|s: Seq<char>| string_bytes(s), b.graph_output_names);
    let role = match b.role {
        BoundaryRole::Input => 1u8,
        BoundaryRole::Output => 2u8,
    };
    let bytes = descriptor_bytes(b);
    let end = 5 + names.len() as int;
    reveal_with_fuel(le_bytes, 5);
    assert(le_bytes(1, 4) =~= seq![1u8, 0u8, 0u8, 0u8]);
    lemma_le_len(b.element_count as int, 8);
    lemma_le_len(b.quantization_scale as int, 8);
    assert(bytes.take(5) =~= seq![1u8, 0u8, 0u8, 0u8, role]);
    assert(bytes.subrange(5, end) =~= names);
    assert(bytes.subrange(end, end + 8) =~= le_bytes(b.element_count as int, 8));
    assert(bytes.skip(end + 8) =~= le_bytes(b.quantization_scale as int, 8));
}

/// What binds a descriptor is a tag and the descriptor's bytes.
pub proof fn lemma_binding_bytes_in_order(b: Boundary)
    ensures
        ({
            let tag = encode_utf8("zkie.boundary-binding.v1\0"@);
            &&& binding_bytes(b).take(tag.len() as int) == tag
            &&& binding_bytes(b).skip(tag.len() as int) == descriptor_bytes(b)
        }),
{
    let tag = encode_utf8("zkie.boundary-binding.v1\0"@);
    assert(binding_bytes(b).take(tag.len() as int) =~= tag);
    assert(binding_bytes(b).skip(tag.len() as int) =~= descriptor_bytes(b));
}

/// A shape is written as a tag, a tag for the kind of its public values, the lengths of inputs and
/// weights and the chosen outputs, the count of the leaf's values, the boundaries of inputs and
/// outputs, the fixed weights, the instructions, and the domains of the normalizations.
pub proof fn lemma_shape_bytes_in_order(shape: CircuitShape)
    ensures
        ({
            let tag = encode_utf8("zkie.assembler-circuit-shape.v3\0"@);
            let kind = if shape.boundary_inputs.len() > 0 || shape.boundary_outputs.len() > 0 {
                encode_utf8(
                    "public-instances-v2:leaf,input-commitments,output-commitments,weights\0"@,
                )
            } else {
                encode_utf8("public-instances-v1:inputs,weights,selected-outputs\0"@)
            };
            let sizes = usizes_bytes(shape.input_shapes) + usizes_bytes(shape.weight_shapes)
                + usizes_bytes(shape.public_outputs) + le_bytes(shape.leaf_prefix_len as int, 8);
            let boundaries = list_bytes(
                |b: Boundary| descriptor_bytes(b),
                shape.boundary_inputs,
            ) + list_bytes(|o: (usize, Boundary)| output_bytes(o), shape.boundary_outputs);
            let rest = list_bytes(|w: Seq<i64>| weights_bytes(w), shape.fixed_public_weights)
                + list_bytes(|s: Step| step_bytes(s), shape.steps) + list_bytes(
                |e: ((usize, u64), Domain)| entry_bytes(e),
                shape.domains,
            );
            shape.bytes() == tag + kind + sizes + boundaries + rest
        }),
{
    let tag = encode_utf8("zkie.assembler-circuit-shape.v3\0"@);
    let kind = if shape.boundary_inputs.len() > 0 || shape.boundary_outputs.len() > 0 {
        encode_utf8("public-instances-v2:leaf,input-commitments,output-commitments,weights\0"@)
    } else {
        encode_utf8("public-instances-v1:inputs,weights,selected-outputs\0"@)
    };
    let (s1, s2, s3, s4) = (
        usizes_bytes(shape.input_shapes),
        usizes_bytes(shape.weight_shapes),
        usizes_bytes(shape.public_outputs),
        usize_bytes(shape.leaf_prefix_len as int),
    );
    let b1 = list_bytes(|b: Boundary| descriptor_bytes(b), shape.boundary_inputs);
    let b2 = list_bytes(|o: (usize, Boundary)| output_bytes(o), shape.boundary_outputs);
    let r1 = list_bytes(|w: Seq<i64>| weights_bytes(w), shape.fixed_public_weights);
    let r2 = list_bytes(|s: Step| step_bytes(s), shape.steps);
    let r3 = list_bytes(|e: ((usize, u64), Domain)| entry_bytes(e), shape.domains);
    let head = tag + kind;
    assert(head + s1 + s2 + s3 + s4 =~= head + (s1 + s2 + s3 + s4));
    let body = head + (s1 + s2 + s3 + s4);
    assert(body + b1 + b2 =~= body + (b1 + b2));
    let most = body + (b1 + b2);
    assert(most + r1 + r2 + r3 =~= most + (r1 + r2 + r3));
}

/// Keys are ordered by dimension, and by epsilon where the dimensions are the same.
pub proof fn lemma_key_order(a: (usize, u64), b: (usize, u64))
    ensures
        a.0 < b.0 ==> key_below(a, b) && !key_below(b, a),
        a.0 == b.0 ==> (key_below(a, b) <==> a.1 < b.1),
        key_below(a, b) || key_below(b, a) || a == b,
{
}

/// A domain is written as the number of its kind and its parts: the bits of two bounds and the
/// count of points, or the list of points.
pub proof fn lemma_domain_bytes_in_order(d: Domain)
    ensures
        match d {
            Domain::Range { min_bits, max_bits, n } => {
                &&& domain_bytes(d).len() == 25
                &&& domain_bytes(d)[0] == 0
                &&& domain_bytes(d).subrange(1, 9) == le_bytes(min_bits as int, 8)
                &&& domain_bytes(d).subrange(9, 17) == le_bytes(max_bits as int, 8)
                &&& domain_bytes(d).skip(17) == le_bytes(n as int, 8)
            },
            Domain::RawAnchors(anchors) => {
                &&& domain_bytes(d)[0] == 1
                &&& domain_bytes(d).skip(1) == weights_bytes(anchors)
            },
        },
{
    match d {
        Domain::Range { min_bits, max_bits, n } => {
            lemma_le_len(min_bits as int, 8);
            lemma_le_len(max_bits as int, 8);
            lemma_le_len(n as int, 8);
            assert(domain_bytes(d).subrange(1, 9) =~= le_bytes(min_bits as int, 8));
            assert(domain_bytes(d).subrange(9, 17) =~= le_bytes(max_bits as int, 8));
            assert(domain_bytes(d).skip(17) =~= le_bytes(n as int, 8));
        },
        Domain::RawAnchors(anchors) => {
            assert(domain_bytes(d).skip(1) =~= weights_bytes(anchors));
        },
    }
}

} // verus!
