//! How what a circuit's shape depends on is written in bytes.
use vstd::prelude::*;
use vstd::string::*;
use vstd::utf8::encode_utf8;

use crate::assembler::semantics::{AssemblerInstruction, RegisterRef, Step};
use crate::chips::layer_norm::{Domain, RsqrtDomain};
use crate::chips::poseidon_boundary::descriptor::{
    texts, Boundary, BoundaryDescriptor, BoundaryRole, BOUNDARY_COMMITMENT_SCHEMA_VERSION,
};
use crate::encode::{le_bytes, push_all, push_le, push_le_i64, unsigned_bits};
use crate::isa::{EltwiseOp, Instruction, Operation, ReduceOp};

verus! {

/// The encodings of items, one after the other.
pub open spec fn concat<A>(f: spec_fn(A) -> Seq<u8>, xs: Seq<A>) -> Seq<u8>
    decreases xs.len(),
{
    if xs.len() == 0 {
        Seq::empty()
    } else {
        concat(f, xs.drop_last()) + f(xs.last())
    }
}

/// The encodings of items, after their count.
pub open spec fn list_bytes<A>(f: spec_fn(A) -> Seq<u8>, xs: Seq<A>) -> Seq<u8> {
    usize_bytes(xs.len() as int) + concat(f, xs)
}

pub open spec fn usize_bytes(v: int) -> Seq<u8> {
    le_bytes(v, 8)
}

pub open spec fn string_bytes(s: Seq<char>) -> Seq<u8> {
    usize_bytes(encode_utf8(s).len() as int) + encode_utf8(s)
}

pub open spec fn role_byte(role: BoundaryRole) -> u8 {
    match role {
        BoundaryRole::Input => 1,
        BoundaryRole::Output => 2,
    }
}

pub open spec fn descriptor_bytes(b: Boundary) -> Seq<u8> {
    le_bytes(BOUNDARY_COMMITMENT_SCHEMA_VERSION as int, 4) + seq![role_byte(b.role)] + string_bytes(
        b.register_id,
    ) + list_bytes(|s: Seq<char>| string_bytes(s), b.edge_ids) + list_bytes(
        |s: Seq<char>| string_bytes(s),
        b.graph_output_names,
    ) + usize_bytes(b.element_count as int) + le_bytes(b.quantization_scale as int, 8)
}

pub open spec fn register_bytes(r: RegisterRef) -> Seq<u8> {
    match r {
        RegisterRef::Input(i) => seq![0u8] + usize_bytes(i as int),
        RegisterRef::Weight(i) => seq![1u8] + usize_bytes(i as int),
        RegisterRef::Virtual(i) => seq![2u8] + usize_bytes(i as int),
    }
}

pub open spec fn usizes_bytes(xs: Seq<usize>) -> Seq<u8> {
    list_bytes(|v: usize| usize_bytes(v as int), xs)
}

pub open spec fn bool_byte(b: bool) -> u8 {
    if b {
        1
    } else {
        0
    }
}

pub open spec fn eltwise_byte(op: EltwiseOp) -> u8 {
    match op {
        EltwiseOp::Add => 0,
        EltwiseOp::Mul => 1,
        EltwiseOp::Relu => 2,
    }
}

pub open spec fn reduce_byte(op: ReduceOp) -> u8 {
    match op {
        ReduceOp::Sum => 0,
        ReduceOp::Mean => 1,
    }
}

pub open spec fn operation_bytes(o: Operation) -> Seq<u8> {
    match o {
        Operation::DotGeneral { m, n, k, batch_dims, trans_a, trans_b } => seq![0u8]
            + usizes_bytes(seq![m, n, k]) + usizes_bytes(batch_dims) + seq![
            bool_byte(trans_a),
            bool_byte(trans_b),
        ],
        Operation::Softmax { axis_dim } => seq![1u8] + usize_bytes(axis_dim as int),
        Operation::Gelu => seq![2u8],
        Operation::LayerNorm { dim, epsilon_milli } => seq![3u8] + usize_bytes(dim as int)
            + le_bytes(epsilon_milli as int, 8),
        Operation::RmsNorm { dim, epsilon_milli } => seq![4u8] + usize_bytes(dim as int)
            + le_bytes(epsilon_milli as int, 8),
        Operation::Eltwise { op } => seq![5u8, eltwise_byte(op)],
        Operation::Reduce { op, axis } => seq![6u8, reduce_byte(op)] + usize_bytes(axis as int),
        Operation::EmbedLookup { table_size, embed_dim } => seq![7u8] + usizes_bytes(
            seq![table_size, embed_dim],
        ),
        Operation::PatchEmbed { patch_len, embed_dim } => seq![8u8] + usizes_bytes(
            seq![patch_len, embed_dim],
        ),
    }
}

pub open spec fn step_bytes(s: Step) -> Seq<u8> {
    list_bytes(|r: RegisterRef| register_bytes(r), s.inputs) + operation_bytes(s.operation)
}

pub open spec fn i64_bytes(v: i64) -> Seq<u8> {
    le_bytes(unsigned_bits(v as int), 8)
}

pub open spec fn domain_bytes(d: Domain) -> Seq<u8> {
    match d {
        Domain::Range { min_bits, max_bits, n } => seq![0u8] + le_bytes(min_bits as int, 8)
            + le_bytes(max_bits as int, 8) + usize_bytes(n as int),
        Domain::RawAnchors(anchors) => seq![1u8] + list_bytes(|v: i64| i64_bytes(v), anchors),
    }
}

/// One item more.
pub proof fn lemma_concat_push<A>(f: spec_fn(A) -> Seq<u8>, xs: Seq<A>, i: int)
    requires
        0 <= i < xs.len(),
    ensures
        concat(f, xs.take(i + 1)) == concat(f, xs.take(i)) + f(xs[i]),
{
    assert(xs.take(i + 1).drop_last() =~= xs.take(i));
}

pub fn encode_usize(bytes: &mut Vec<u8>, value: usize)
    ensures
        final(bytes)@ == old(bytes)@ + usize_bytes(value as int),
{
    push_le(bytes, value as u64, 8);
}

pub fn encode_usizes(bytes: &mut Vec<u8>, values: &[usize])
    ensures
        final(bytes)@ == old(bytes)@ + usizes_bytes(values@),
{
    let ghost before = bytes@;
    let ghost f = |v: usize| usize_bytes(v as int);
    let ghost head = usize_bytes(values@.len() as int);
    encode_usize(bytes, values.len());
    let mut i: usize = 0;
    assert(before + head + concat(f, values@.take(0)) =~= bytes@);
    while i < values.len()
        invariant
            i <= values@.len(),
            f == (|v: usize| usize_bytes(v as int)),
            bytes@ == before + head + concat(f, values@.take(i as int)),
        decreases values@.len() - i,
    {
        encode_usize(bytes, values[i]);
        proof {
            lemma_concat_push(f, values@, i as int);
            assert(before + head + concat(f, values@.take(i as int)) + f(values@[i as int])
                =~= before + head + (concat(f, values@.take(i as int)) + f(values@[i as int])));
        }
        i += 1;
    }
    proof {
        assert(values@.take(i as int) =~= values@);
        assert(before + head + concat(f, values@) =~= before + (head + concat(f, values@)));
    }
}

pub fn encode_string(bytes: &mut Vec<u8>, value: &str)
    ensures
        final(bytes)@ == old(bytes)@ + string_bytes(value@),
{
    let ghost before = bytes@;
    let text = value.as_bytes();
    encode_usize(bytes, text.len());
    push_all(bytes, text);
    assert(bytes@ =~= before + string_bytes(value@));
}

/// Appends strings, after their count.
fn encode_strings(bytes: &mut Vec<u8>, values: &[String])
    ensures
        final(bytes)@ == old(bytes)@ + list_bytes(|s: Seq<char>| string_bytes(s), texts(values@)),
{
    let ghost before = bytes@;
    let ghost f = |s: Seq<char>| string_bytes(s);
    let ghost head = usize_bytes(values@.len() as int);
    let ghost names = texts(values@);
    encode_usize(bytes, values.len());
    let mut i: usize = 0;
    assert(before + head + concat(f, names.take(0)) =~= bytes@);
    while i < values.len()
        invariant
            i <= values@.len(),
            f == (|s: Seq<char>| string_bytes(s)),
            names == texts(values@),
            bytes@ == before + head + concat(f, names.take(i as int)),
        decreases values@.len() - i,
    {
        encode_string(bytes, values[i].as_str());
        proof {
            lemma_concat_push(f, names, i as int);
            assert(names[i as int] == values@[i as int]@);
            assert(before + head + concat(f, names.take(i as int)) + f(names[i as int]) =~= before
                + head + (concat(f, names.take(i as int)) + f(names[i as int])));
        }
        i += 1;
    }
    proof {
        assert(names.take(i as int) =~= names);
        assert(before + head + concat(f, names) =~= before + (head + concat(f, names)));
    }
}

pub fn encode_boundary_descriptor(bytes: &mut Vec<u8>, descriptor: &BoundaryDescriptor)
    ensures
        final(bytes)@ == old(bytes)@ + descriptor_bytes(descriptor@),
{
    let ghost before = bytes@;
    push_le(bytes, BOUNDARY_COMMITMENT_SCHEMA_VERSION as u64, 4);
    let role: u8 = match descriptor.role() {
        BoundaryRole::Input => 1,
        BoundaryRole::Output => 2,
    };
    bytes.push(role);
    encode_string(bytes, descriptor.register_id());
    encode_strings(bytes, descriptor.edge_ids());
    encode_strings(bytes, descriptor.graph_output_names());
    encode_usize(bytes, descriptor.element_count());
    push_le(bytes, descriptor.quantization_scale(), 8);
    assert(bytes@ =~= before + descriptor_bytes(descriptor@));
}

fn encode_register(bytes: &mut Vec<u8>, register: RegisterRef)
    ensures
        final(bytes)@ == old(bytes)@ + register_bytes(register),
{
    let ghost before = bytes@;
    match register {
        RegisterRef::Input(index) => {
            bytes.push(0);
            encode_usize(bytes, index);
        },
        RegisterRef::Weight(index) => {
            bytes.push(1);
            encode_usize(bytes, index);
        },
        RegisterRef::Virtual(index) => {
            bytes.push(2);
            encode_usize(bytes, index);
        },
    }
    assert(bytes@ =~= before + register_bytes(register));
}

fn encode_operation(bytes: &mut Vec<u8>, instruction: &Instruction)
    ensures
        final(bytes)@ == old(bytes)@ + operation_bytes(instruction@),
{
    let ghost before = bytes@;
    match instruction {
        Instruction::DotGeneral { m, n, k, batch_dims, trans_a, trans_b } => {
            bytes.push(0);
            let sizes: [usize; 3] = [*m, *n, *k];
            encode_usizes(bytes, &sizes);
            encode_usizes(bytes, batch_dims.as_slice());
            let a: u8 = if *trans_a {
                1
            } else {
                0
            };
            let b: u8 = if *trans_b {
                1
            } else {
                0
            };
            bytes.push(a);
            bytes.push(b);
            assert(sizes@ =~= seq![*m, *n, *k]);
        },
        Instruction::Softmax { axis_dim } => {
            bytes.push(1);
            encode_usize(bytes, *axis_dim);
        },
        Instruction::Gelu => {
            bytes.push(2);
        },
        Instruction::LayerNorm { dim, epsilon_milli } => {
            bytes.push(3);
            encode_usize(bytes, *dim);
            push_le(bytes, *epsilon_milli, 8);
        },
        Instruction::RmsNorm { dim, epsilon_milli } => {
            bytes.push(4);
            encode_usize(bytes, *dim);
            push_le(bytes, *epsilon_milli, 8);
        },
        Instruction::Eltwise { op } => {
            bytes.push(5);
            let tag: u8 = match op {
                EltwiseOp::Add => 0,
                EltwiseOp::Mul => 1,
                EltwiseOp::Relu => 2,
            };
            bytes.push(tag);
        },
        Instruction::Reduce { op, axis } => {
            bytes.push(6);
            let tag: u8 = match op {
                ReduceOp::Sum => 0,
                ReduceOp::Mean => 1,
            };
            bytes.push(tag);
            encode_usize(bytes, *axis);
        },
        Instruction::EmbedLookup { table_size, embed_dim } => {
            bytes.push(7);
            let sizes: [usize; 2] = [*table_size, *embed_dim];
            encode_usizes(bytes, &sizes);
            assert(sizes@ =~= seq![*table_size, *embed_dim]);
        },
        Instruction::PatchEmbed { patch_len, embed_dim } => {
            bytes.push(8);
            let sizes: [usize; 2] = [*patch_len, *embed_dim];
            encode_usizes(bytes, &sizes);
            assert(sizes@ =~= seq![*patch_len, *embed_dim]);
        },
    }
    assert(bytes@ =~= before + operation_bytes(instruction@));
}

pub fn encode_instruction(bytes: &mut Vec<u8>, instruction: &AssemblerInstruction)
    ensures
        final(bytes)@ == old(bytes)@ + step_bytes(instruction@),
{
    let ghost before = bytes@;
    let ghost f = |r: RegisterRef| register_bytes(r);
    let ghost inputs = instruction.inputs@;
    let ghost head = usize_bytes(inputs.len() as int);
    encode_usize(bytes, instruction.inputs.len());
    let mut i: usize = 0;
    assert(before + head + concat(f, inputs.take(0)) =~= bytes@);
    while i < instruction.inputs.len()
        invariant
            i <= inputs.len(),
            inputs == instruction.inputs@,
            f == (|r: RegisterRef| register_bytes(r)),
            bytes@ == before + head + concat(f, inputs.take(i as int)),
        decreases inputs.len() - i,
    {
        encode_register(bytes, instruction.inputs[i]);
        proof {
            lemma_concat_push(f, inputs, i as int);
            assert(before + head + concat(f, inputs.take(i as int)) + f(inputs[i as int])
                =~= before + head + (concat(f, inputs.take(i as int)) + f(inputs[i as int])));
        }
        i += 1;
    }
    encode_operation(bytes, &instruction.instruction);
    proof {
        assert(inputs.take(i as int) =~= inputs);
        assert(bytes@ =~= before + step_bytes(instruction@));
    }
}

/// Appends signed integers, after their count.
pub(crate) fn encode_i64s(bytes: &mut Vec<u8>, values: &Vec<i64>)
    ensures
        final(bytes)@ == old(bytes)@ + list_bytes(|v: i64| i64_bytes(v), values@),
{
    let ghost before = bytes@;
    let ghost f = |v: i64| i64_bytes(v);
    let ghost head = usize_bytes(values@.len() as int);
    encode_usize(bytes, values.len());
    let mut i: usize = 0;
    assert(before + head + concat(f, values@.take(0)) =~= bytes@);
    while i < values.len()
        invariant
            i <= values@.len(),
            f == (|v: i64| i64_bytes(v)),
            bytes@ == before + head + concat(f, values@.take(i as int)),
        decreases values@.len() - i,
    {
        push_le_i64(bytes, values[i]);
        proof {
            lemma_concat_push(f, values@, i as int);
            assert(before + head + concat(f, values@.take(i as int)) + f(values@[i as int])
                =~= before + head + (concat(f, values@.take(i as int)) + f(values@[i as int])));
        }
        i += 1;
    }
    proof {
        assert(values@.take(i as int) =~= values@);
        assert(before + head + concat(f, values@) =~= before + (head + concat(f, values@)));
    }
}

/// Appends a domain.
pub(crate) fn encode_domain(bytes: &mut Vec<u8>, domain: &RsqrtDomain)
    ensures
        final(bytes)@ == old(bytes)@ + domain_bytes(domain@),
{
    let ghost before = bytes@;
    match domain {
        RsqrtDomain::Range { min_bits, max_bits, n } => {
            bytes.push(0);
            push_le(bytes, *min_bits, 8);
            push_le(bytes, *max_bits, 8);
            encode_usize(bytes, *n);
        },
        RsqrtDomain::RawAnchors(anchors) => {
            bytes.push(1);
            encode_i64s(bytes, anchors);
        },
    }
    assert(bytes@ =~= before + domain_bytes(domain@));
}

} // verus!
