//! What the public values and the shape of a circuit hold.
use vstd::prelude::*;
use vstd::utf8::{encode_utf8, is_ascii_chars_encode_utf8};

use crate::assembler::chip::runs;
use crate::assembler::error::AssemblerError;
use crate::assembler::range::lemma_runs_unique;
use crate::assembler::semantics::{AssemblerProgram, Registers};
use crate::chips::layer_norm::{all_i64, Domain};
use crate::chips::poseidon_boundary::descriptor::{Boundary, BoundaryDescriptor, BoundaryRole};
use crate::chips::poseidon_boundary::hash::{commitment, residues};
use crate::chips::poseidon_boundary::identity::{blake3_digest, identity_bytes, identity_tag};
use crate::chips::poseidon_boundary::laws::{
    lemma_canonical_header, lemma_digest_limbs_in_order, lemma_residues_injective,
};
use crate::chips::reduce::total;
use crate::encode::{le_bytes, lemma_same_split};
use crate::fixed_point::lemma_i18_range;
use crate::program_circuit::circuit::{
    input_work, output_work, raw_weights, valid_boundaries, valid_indices, AssemblerCircuit,
};
use crate::program_circuit::encoding::descriptor_bytes;
use crate::program_circuit::injective::{countable_boundary, lemma_descriptor_unambiguous};
use crate::program_circuit::params::{
    boundaries, empty_shape, indexed_boundaries, program_shape, shape_tag, weight_rows,
    CircuitShape,
};
use crate::program_circuit::public::{
    binding, binding_bytes, boundary_publics, flatten, input_publics, output_publics, selected,
};
use crate::program_circuit::public_cells::{outputs_fit, AssemblerCircuitConfig};
use crate::program_circuit::synthesis::circuit_fails;

verus! {

/// Tensors are written one after the other: those in front, then those behind; one tensor is
/// written as it is.
pub proof fn lemma_flatten_concat(s: Seq<Seq<int>>, t: Seq<Seq<int>>, x: Seq<int>)
    ensures
        flatten(s + t) == flatten(s) + flatten(t),
        flatten(seq![x]) == x,
        flatten(Seq::<Seq<int>>::empty()) == Seq::<int>::empty(),
    decreases t.len(),
{
    if t.len() == 0 {
        assert(s + t =~= s);
        assert(flatten(s) + flatten(t) =~= flatten(s));
    } else {
        let rest = t.drop_last();
        lemma_flatten_concat(s, rest, x);
        assert((s + t).drop_last() =~= s + rest);
        assert(flatten(s) + flatten(rest) + t.last() =~= flatten(s) + (flatten(rest) + t.last()));
    }
    assert(seq![x].drop_last() =~= Seq::<Seq<int>>::empty());
    reveal_with_fuel(flatten, 2);
    assert(Seq::<int>::empty() + x =~= x);
}

/// Tensors have the same lengths.
pub open spec fn same_lengths(s: Seq<Seq<int>>, t: Seq<Seq<int>>) -> bool {
    &&& s.len() == t.len()
    &&& forall|i: int| 0 <= i < s.len() ==> (#[trigger] s[i]).len() == t[i].len()
}

/// Tensors are of 64-bit integers.
pub open spec fn all_tensors_fit(s: Seq<Seq<int>>) -> bool {
    forall|i: int| 0 <= i < s.len() ==> all_i64(#[trigger] s[i])
}

proof fn lemma_flatten_lengths(s: Seq<Seq<int>>, t: Seq<Seq<int>>)
    requires
        same_lengths(s, t),
    ensures
        flatten(s).len() == flatten(t).len(),
    decreases s.len(),
{
    if s.len() > 0 {
        let (a, b) = (s.drop_last(), t.drop_last());
        assert forall|i: int| 0 <= i < a.len() implies (#[trigger] a[i]).len() == b[i].len() by {
            assert(a[i] == s[i] && b[i] == t[i]);
        }
        lemma_flatten_lengths(a, b);
        assert(s[s.len() - 1].len() == t[t.len() - 1].len());
    }
}

proof fn lemma_flatten_fits(s: Seq<Seq<int>>)
    requires
        all_tensors_fit(s),
    ensures
        all_i64(flatten(s)),
    decreases s.len(),
{
    if s.len() > 0 {
        let a = s.drop_last();
        assert forall|i: int| 0 <= i < a.len() implies all_i64(#[trigger] a[i]) by {
            assert(a[i] == s[i]);
        }
        lemma_flatten_fits(a);
        assert(all_i64(s[s.len() - 1]));
    }
}

proof fn lemma_flatten_injective(s: Seq<Seq<int>>, t: Seq<Seq<int>>)
    requires
        same_lengths(s, t),
        flatten(s) == flatten(t),
    ensures
        s == t,
    decreases s.len(),
{
    if s.len() > 0 {
        let (a, b) = (s.drop_last(), t.drop_last());
        assert forall|i: int| 0 <= i < a.len() implies (#[trigger] a[i]).len() == b[i].len() by {
            assert(a[i] == s[i] && b[i] == t[i]);
        }
        lemma_flatten_lengths(a, b);
        lemma_same_split(flatten(a), s.last(), flatten(b), t.last());
        lemma_flatten_injective(a, b);
        assert(s =~= a.push(s.last()) && t =~= b.push(t.last()));
    } else {
        assert(s =~= t);
    }
}

/// Without boundaries, the public values are the inputs, the weights and the chosen outputs as
/// field elements, in this order: registers of the same lengths with the same public values have
/// the same inputs and weights, and the same chosen outputs.
pub proof fn lemma_publics_show_inputs_weights_and_outputs(
    shape: CircuitShape,
    leaf: Seq<int>,
    a: Registers,
    b: Registers,
    at: int,
)
    requires
        !shape.bounded(),
        same_lengths(a.inputs, b.inputs) && same_lengths(a.weights, b.weights),
        same_lengths(a.virtuals, b.virtuals),
        all_tensors_fit(a.inputs) && all_tensors_fit(a.weights) && all_tensors_fit(a.virtuals),
        all_tensors_fit(b.inputs) && all_tensors_fit(b.weights) && all_tensors_fit(b.virtuals),
        forall|i: int|
            0 <= i < shape.public_outputs.len() ==> (#[trigger] shape.public_outputs[i])
                < a.virtuals.len(),
        shape.publics(leaf, a) == shape.publics(leaf, b),
    ensures
        a.inputs == b.inputs,
        a.weights == b.weights,
        0 <= at < shape.public_outputs.len() ==> a.virtuals[shape.public_outputs[at] as int]
            == b.virtuals[shape.public_outputs[at] as int],
{
    let (oa, ob) = (
        selected(a.virtuals, shape.public_outputs),
        selected(b.virtuals, shape.public_outputs),
    );
    assert forall|i: int| 0 <= i < oa.len() implies (#[trigger] oa[i]).len() == ob[i].len()
        && all_i64(oa[i]) && all_i64(ob[i]) by {
        let k = shape.public_outputs[i] as int;
        assert(k < a.virtuals.len());
        assert(a.virtuals[k].len() == b.virtuals[k].len());
        assert(all_i64(a.virtuals[k]) && all_i64(b.virtuals[k]));
    }
    assert(all_tensors_fit(ob)) by {
        assert forall|i: int| 0 <= i < ob.len() implies all_i64(#[trigger] ob[i]) by {
            assert(all_i64(ob[i])) by {
                assert(oa[i].len() == ob[i].len());
            }
        }
    }
    lemma_flatten_lengths(a.inputs, b.inputs);
    lemma_flatten_lengths(a.weights, b.weights);
    lemma_flatten_lengths(oa, ob);
    lemma_flatten_fits(a.inputs);
    lemma_flatten_fits(a.weights);
    lemma_flatten_fits(oa);
    lemma_flatten_fits(b.inputs);
    lemma_flatten_fits(b.weights);
    lemma_flatten_fits(ob);
    let (ia, wa, va) = (
        residues(flatten(a.inputs)),
        residues(flatten(a.weights)),
        residues(flatten(oa)),
    );
    let (ib, wb, vb) = (
        residues(flatten(b.inputs)),
        residues(flatten(b.weights)),
        residues(flatten(ob)),
    );
    lemma_same_split(ia + wa, va, ib + wb, vb);
    lemma_same_split(ia, wa, ib, wb);
    lemma_residues_injective(flatten(a.inputs), flatten(b.inputs));
    lemma_residues_injective(flatten(a.weights), flatten(b.weights));
    lemma_residues_injective(flatten(oa), flatten(ob));
    lemma_flatten_injective(a.inputs, b.inputs);
    lemma_flatten_injective(a.weights, b.weights);
    lemma_flatten_injective(oa, ob);
    if 0 <= at < shape.public_outputs.len() {
        assert(oa[at] == ob[at]);
    }
}

/// Without boundaries, the inputs come first among the public values, then the weights, and then
/// the chosen outputs, each number as its field element.
pub proof fn lemma_publics_in_order(shape: CircuitShape, leaf: Seq<int>, regs: Registers, i: int)
    requires
        !shape.bounded(),
    ensures
        ({
            let (xs, ws) = (flatten(regs.inputs), flatten(regs.weights));
            let os = flatten(selected(regs.virtuals, shape.public_outputs));
            let all = shape.publics(leaf, regs);
            &&& all.len() == xs.len() + ws.len() + os.len()
            &&& 0 <= i < xs.len() ==> all[i] == residues(xs)[i]
            &&& 0 <= i < ws.len() ==> all[xs.len() + i] == residues(ws)[i]
            &&& 0 <= i < os.len() ==> all[xs.len() + ws.len() + i] == residues(os)[i]
        }),
{
}

proof fn lemma_input_publics(bs: Seq<Boundary>, tensors: Seq<Seq<int>>, i: int)
    ensures
        input_publics(bs, tensors).len() == 3 * bs.len(),
        0 <= i < bs.len() ==> {
            let all = input_publics(bs, tensors);
            &&& all[3 * i] == binding(bs[i])[0]
            &&& all[3 * i + 1] == binding(bs[i])[1]
            &&& all[3 * i + 2] == commitment(bs[i], residues(tensors[i]))
        },
    decreases bs.len(),
{
    if bs.len() > 0 {
        let rest = bs.drop_last();
        lemma_input_publics(rest, tensors, i);
        let n = bs.len() - 1;
        let last = boundary_publics(bs[n], tensors[n]);
        assert(last.len() == 3);
        if 0 <= i < n {
            assert(rest[i] == bs[i]);
        }
    }
}

proof fn lemma_output_publics(bs: Seq<(usize, Boundary)>, tensors: Seq<Seq<int>>, i: int)
    ensures
        output_publics(bs, tensors).len() == 3 * bs.len(),
        0 <= i < bs.len() ==> {
            let all = output_publics(bs, tensors);
            &&& all[3 * i] == binding(bs[i].1)[0]
            &&& all[3 * i + 1] == binding(bs[i].1)[1]
            &&& all[3 * i + 2] == commitment(bs[i].1, residues(tensors[bs[i].0 as int]))
        },
    decreases bs.len(),
{
    if bs.len() > 0 {
        let rest = bs.drop_last();
        lemma_output_publics(rest, tensors, i);
        let n = bs.len() - 1;
        let last = boundary_publics(bs[n].1, tensors[bs[n].0 as int]);
        assert(last.len() == 3);
        if 0 <= i < n {
            assert(rest[i] == bs[i]);
        }
    }
}

/// With boundaries, the public values are the leaf's, three for each input, the count of outputs
/// and three for each, and the count of weights and the weights. The three of a boundary bind its
/// descriptor and commit to the tensor that it describes: an input's own, or the output that the
/// boundary names.
#[verifier::rlimit(40)]
pub proof fn lemma_bounded_publics(shape: CircuitShape, leaf: Seq<int>, regs: Registers, i: int)
    requires
        shape.bounded(),
    ensures
        ({
            let all = shape.publics(leaf, regs);
            let first = leaf.len() as int;
            let outs = first + 3 * shape.boundary_inputs.len() as int;
            let weights = outs + 1 + 3 * shape.boundary_outputs.len() as int;
            let ws = flatten(regs.weights);
            &&& all.len() == weights + 1 + ws.len()
            &&& 0 <= i < leaf.len() ==> all[i] == leaf[i]
            &&& 0 <= i < shape.boundary_inputs.len() ==> {
                let b = shape.boundary_inputs[i];
                &&& all[first + 3 * i] == binding(b)[0]
                &&& all[first + 3 * i + 1] == binding(b)[1]
                &&& all[first + 3 * i + 2] == commitment(b, residues(regs.inputs[i]))
            }
            &&& all[outs] == shape.boundary_outputs.len()
            &&& 0 <= i < shape.boundary_outputs.len() ==> {
                let (at, b) = shape.boundary_outputs[i];
                &&& all[outs + 1 + 3 * i] == binding(b)[0]
                &&& all[outs + 1 + 3 * i + 1] == binding(b)[1]
                &&& all[outs + 1 + 3 * i + 2] == commitment(b, residues(regs.virtuals[at as int]))
            }
            &&& all[weights] == ws.len()
            &&& 0 <= i < ws.len() ==> all[weights + 1 + i] == residues(ws)[i]
        }),
{
    let ins = input_publics(shape.boundary_inputs, regs.inputs);
    let outs = output_publics(shape.boundary_outputs, regs.virtuals);
    let ws = residues(flatten(regs.weights));
    let (n, k) = (seq![shape.boundary_outputs.len() as int], seq![ws.len() as int]);
    lemma_input_publics(shape.boundary_inputs, regs.inputs, i);
    lemma_output_publics(shape.boundary_outputs, regs.virtuals, i);
    lemma_six_parts(leaf, ins, n, outs, k, ws);
    let all = shape.publics(leaf, regs);
    assert(all == leaf + ins + n + outs + k + ws);
    let first = leaf.len() as int;
    let next = first + 3 * shape.boundary_inputs.len() as int;
    let last = next + 1 + 3 * shape.boundary_outputs.len() as int;
    if 0 <= i < shape.boundary_inputs.len() {
        assert(all[first + (3 * i)] == ins[3 * i]);
        assert(all[first + (3 * i + 1)] == ins[3 * i + 1]);
        assert(all[first + (3 * i + 2)] == ins[3 * i + 2]);
    }
    assert(all[next + 0] == n[0]);
    if 0 <= i < shape.boundary_outputs.len() {
        assert(all[next + 1 + (3 * i)] == outs[3 * i]);
        assert(all[next + 1 + (3 * i + 1)] == outs[3 * i + 1]);
        assert(all[next + 1 + (3 * i + 2)] == outs[3 * i + 2]);
    }
    assert(all[last + 0] == k[0]);
    if 0 <= i < ws.len() {
        assert(all[last + 1 + i] == ws[i]);
    }
}

/// Six sequences, one after the other, are each found where the ones before it end.
proof fn lemma_six_parts(
    a: Seq<int>,
    b: Seq<int>,
    c: Seq<int>,
    d: Seq<int>,
    e: Seq<int>,
    f: Seq<int>,
)
    ensures
        ({
            let all = a + b + c + d + e + f;
            let nb = a.len() as int;
            let nc = nb + b.len();
            let nd = nc + c.len();
            let ne = nd + d.len();
            let nf = ne + e.len();
            &&& all.len() == nf + f.len()
            &&& forall|i: int| 0 <= i < a.len() ==> all[i] == #[trigger] a[i]
            &&& forall|i: int| 0 <= i < b.len() ==> all[nb + i] == #[trigger] b[i]
            &&& forall|i: int| 0 <= i < c.len() ==> all[nc + i] == #[trigger] c[i]
            &&& forall|i: int| 0 <= i < d.len() ==> all[nd + i] == #[trigger] d[i]
            &&& forall|i: int| 0 <= i < e.len() ==> all[ne + i] == #[trigger] e[i]
            &&& forall|i: int| 0 <= i < f.len() ==> all[nf + i] == #[trigger] f[i]
        }),
{
}

/// What is hashed to bind a descriptor determines it.
pub proof fn lemma_binding_bytes_injective(a: Boundary, b: Boundary)
    requires
        countable_boundary(a),
        countable_boundary(b),
        binding_bytes(a) == binding_bytes(b),
    ensures
        a == b,
{
    let tag = encode_utf8("zkie.boundary-binding.v1\0"@);
    lemma_same_split(tag, descriptor_bytes(a), tag, descriptor_bytes(b));
    let none = Seq::<u8>::empty();
    assert(descriptor_bytes(a) + none =~= descriptor_bytes(a));
    assert(descriptor_bytes(b) + none =~= descriptor_bytes(b));
    lemma_descriptor_unambiguous(a, b, none, none);
}

/// What is hashed for a name, for a descriptor and for a shape is never the same: each starts with
/// a tag of its own.
pub proof fn lemma_hashes_are_separated(name: Seq<char>, b: Boundary, shape: CircuitShape)
    ensures
        identity_bytes(name) != binding_bytes(b),
        identity_bytes(name) != shape.bytes(),
        binding_bytes(b) != shape.bytes(),
{
    let (one, two, three) = (
        "zkie.boundary-identity.v1\0",
        "zkie.boundary-binding.v1\0",
        "zkie.assembler-circuit-shape.v3\0",
    );
    reveal_strlit("zkie.boundary-identity.v1\0");
    reveal_strlit("zkie.boundary-binding.v1\0");
    reveal_strlit("zkie.assembler-circuit-shape.v3\0");
    is_ascii_chars_encode_utf8(one@);
    is_ascii_chars_encode_utf8(two@);
    is_ascii_chars_encode_utf8(three@);
    assert(encode_utf8(one@)[5] == 98u8 && encode_utf8(two@)[5] == 98u8);
    assert(encode_utf8(three@)[5] == 97u8);
    assert(encode_utf8(one@)[14] == 105u8 && encode_utf8(two@)[14] == 98u8);
    assert(identity_bytes(name)[5] == identity_tag()[5]);
    assert(identity_bytes(name)[14] == identity_tag()[14]);
    assert(binding_bytes(b)[5] == encode_utf8(two@)[5]);
    assert(binding_bytes(b)[14] == encode_utf8(two@)[14]);
    assert(shape.bytes()[5] == shape_tag()[5]);
}

/// Indices are valid exactly where they are in range and increase throughout, so that none occurs
/// twice.
pub proof fn lemma_valid_indices(indices: Seq<usize>, bound: nat)
    ensures
        valid_indices(indices, bound) <==> {
            &&& forall|i: int| 0 <= i < indices.len() ==> #[trigger] indices[i] < bound
            &&& forall|i: int, j: int|
                0 <= i < j < indices.len() ==> (#[trigger] indices[i]) < (#[trigger] indices[j])
        },
{
    if valid_indices(indices, bound) {
        assert forall|i: int, j: int| 0 <= i < j < indices.len() implies (
        #[trigger] indices[i]) < (#[trigger] indices[j]) by {
            lemma_increasing(indices, i, j);
        }
    }
}

proof fn lemma_increasing(indices: Seq<usize>, i: int, j: int)
    requires
        forall|i: int| 0 <= i && i + 1 < indices.len() ==> #[trigger] indices[i] < indices[i + 1],
        0 <= i < j < indices.len(),
    ensures
        indices[i] < indices[j],
    decreases j - i,
{
    assert(indices[j - 1] < indices[j - 1 + 1]);
    if i < j - 1 {
        lemma_increasing(indices, i, j - 1);
    }
}

/// How much a boundary's commitment folds: its tensor, twelve values, and two for each name beside
/// the register's.
pub open spec fn folded(b: Boundary) -> int {
    b.element_count + 12 + 2 * (b.edge_ids.len() + b.graph_output_names.len())
}

proof fn lemma_input_work(bs: Seq<Boundary>)
    ensures
        input_work(bs) == total(Seq::new(bs.len(), |i: int| folded(bs[i]))),
    decreases bs.len(),
{
    let all = Seq::new(bs.len(), |i: int| folded(bs[i]));
    if bs.len() > 0 {
        let rest = bs.drop_last();
        lemma_input_work(rest);
        lemma_canonical_header(bs.last());
        assert(all.drop_last() =~= Seq::new(rest.len(), |i: int| folded(rest[i])));
    }
}

proof fn lemma_output_work(bs: Seq<(usize, Boundary)>)
    ensures
        output_work(bs) == total(Seq::new(bs.len(), |i: int| folded(bs[i].1))),
    decreases bs.len(),
{
    let all = Seq::new(bs.len(), |i: int| folded(bs[i].1));
    if bs.len() > 0 {
        let rest = bs.drop_last();
        lemma_output_work(rest);
        lemma_canonical_header(bs.last().1);
        assert(all.drop_last() =~= Seq::new(rest.len(), |i: int| folded(rest[i].1)));
    }
}

/// Boundaries are accepted exactly where each input has one, in the role of an input and of its
/// length; the outputs' name different instructions in increasing order, in the role of outputs;
/// all descriptors are valid; the leaf has seventeen values; and at most twelve thousand values
/// are folded.
pub proof fn lemma_accepted_boundaries(
    program: AssemblerProgram,
    inputs: Seq<Boundary>,
    outputs: Seq<(usize, Boundary)>,
    leaf: nat,
)
    ensures
        valid_boundaries(program, inputs, outputs, leaf) <==> {
            &&& inputs.len() == program.input_values@.len()
            &&& forall|i: int|
                0 <= i < inputs.len() ==> {
                    &&& (#[trigger] inputs[i]).role == BoundaryRole::Input
                    &&& inputs[i].element_count == program.input_values@[i]@.len()
                    &&& inputs[i].error() is None
                }
            &&& forall|i: int|
                0 <= i < outputs.len() ==> {
                    &&& (#[trigger] outputs[i]).0 < program.instructions@.len()
                    &&& outputs[i].1.role == BoundaryRole::Output
                    &&& outputs[i].1.error() is None
                }
            &&& forall|i: int, j: int|
                0 <= i < j < outputs.len() ==> (#[trigger] outputs[i]).0 < (
                #[trigger] outputs[j]).0
            &&& leaf == 17
            &&& total(Seq::new(inputs.len(), |i: int| folded(inputs[i]))) + total(
                Seq::new(outputs.len(), |i: int| folded(outputs[i].1)),
            ) <= 12000
        },
{
    lemma_input_work(inputs);
    lemma_output_work(outputs);
    let at = Seq::new(outputs.len(), |i: int| outputs[i].0);
    if valid_boundaries(program, inputs, outputs, leaf) {
        assert forall|i: int| 0 <= i && i + 1 < at.len() implies #[trigger] at[i] < at[i + 1] by {
            assert(outputs[i].0 < outputs[i + 1].0);
        }
        assert forall|i: int, j: int| 0 <= i < j < outputs.len() implies (
        #[trigger] outputs[i]).0 < (#[trigger] outputs[j]).0 by {
            lemma_increasing(at, i, j);
        }
        assert forall|i: int| 0 <= i < inputs.len() implies {
            &&& (#[trigger] inputs[i]).role == BoundaryRole::Input
            &&& inputs[i].element_count == program.input_values@[i]@.len()
            &&& inputs[i].error() is None
        } by {}
    }
}

/// The shape of a program's circuit has its instructions with what they read, the lengths of its
/// inputs and weights, and the chosen outputs; and where weights are fixed, they are the
/// program's.
pub proof fn lemma_program_shape(
    program: AssemblerProgram,
    domains: Seq<((usize, u64), Domain)>,
    outputs: Seq<usize>,
    i: int,
    j: int,
)
    ensures
        ({
            let shape = program_shape(program, domains, outputs);
            let weights = raw_weights(program.weight_values@);
            &&& shape.steps.len() == program.instructions@.len()
            &&& 0 <= i < program.instructions@.len() ==> shape.steps[i].inputs
                == program.instructions@[i].inputs@ && shape.steps[i].operation
                == program.instructions@[i].instruction@
            &&& shape.input_shapes.len() == program.input_values@.len()
            &&& 0 <= i < program.input_values@.len() ==> shape.input_shapes[i]
                == program.input_values@[i]@.len()
            &&& shape.weight_shapes.len() == program.weight_values@.len()
            &&& 0 <= i < program.weight_values@.len() ==> shape.weight_shapes[i]
                == program.weight_values@[i]@.len()
            &&& shape.public_outputs == outputs
            &&& shape.domains == domains
            &&& weights.len() == program.weight_values@.len()
            &&& 0 <= i < weights.len() ==> weights[i].len() == program.weight_values@[i]@.len()
            &&& 0 <= i < weights.len() && 0 <= j < weights[i].len() ==> weights[i][j]
                == program.weight_values@[i]@[j]@
        }),
{
    broadcast use lemma_i18_range;

    if 0 <= i < program.input_values@.len() {
        vstd::std_specs::vec::axiom_spec_len(&program.input_values@[i]);
    }
    if 0 <= i < program.weight_values@.len() {
        vstd::std_specs::vec::axiom_spec_len(&program.weight_values@[i]);
    }
}

/// A circuit is laid out whenever its program succeeds and each output has the length that its
/// boundary says, where it has one.
pub proof fn lemma_circuit_succeeds(
    circuit: AssemblerCircuit,
    config: AssemblerCircuitConfig,
    outputs: Seq<Seq<int>>,
)
    requires
        runs(config.assembler.config, circuit.program, Ok(outputs)),
        forall|i: int|
            0 <= i < circuit.shape().boundary_outputs.len() ==> {
                let (at, b) = #[trigger] circuit.shape().boundary_outputs[i];
                outputs[at as int].len() == b.element_count
            },
    ensures
        !circuit_fails(circuit, config),
{
    let c = config.assembler.config;
    if circuit_fails(circuit, config) {
        if exists|e: AssemblerError| #[trigger] runs(c, circuit.program, Err(e)) {
            let e = choose|e: AssemblerError| #[trigger] runs(c, circuit.program, Err(e));
            lemma_runs_unique(c, circuit.program, outputs, Err(e));
        } else {
            let others = choose|others: Seq<Seq<int>>| #[trigger]
                runs(c, circuit.program, Ok(others)) && circuit.shape().bounded()
                    && !outputs_fit(circuit.shape().boundary_outputs, others);
            lemma_runs_unique(c, circuit.program, outputs, Ok(others));
        }
    }
}

/// A circuit is refused where its program fails, and where an output has another length than its
/// boundary says.
pub proof fn lemma_circuit_refused(
    circuit: AssemblerCircuit,
    config: AssemblerCircuitConfig,
    outputs: Seq<Seq<int>>,
    e: AssemblerError,
    i: int,
)
    ensures
        runs(config.assembler.config, circuit.program, Err(e)) ==> circuit_fails(circuit, config),
        runs(config.assembler.config, circuit.program, Ok(outputs)) && 0 <= i
            < circuit.shape().boundary_outputs.len() && outputs[(
        circuit.shape().boundary_outputs[i]).0 as int].len()
            != circuit.shape().boundary_outputs[i].1.element_count ==> circuit_fails(
            circuit,
            config,
        ),
{
}

/// Two field elements bind a descriptor: the halves of the digest of what is hashed for it, each
/// with its least significant byte first.
pub proof fn lemma_binding_is_the_digest(b: Boundary)
    ensures
        binding(b).len() == 2,
        blake3_digest(binding_bytes(b)).len() == 32 ==> le_bytes(binding(b)[0], 16) + le_bytes(
            binding(b)[1],
            16,
        ) == blake3_digest(binding_bytes(b)),
{
    if blake3_digest(binding_bytes(b)).len() == 32 {
        lemma_digest_limbs_in_order(blake3_digest(binding_bytes(b)));
    }
}

/// Descriptors and weights are taken in their order.
pub proof fn lemma_parts_in_order(
    ins: Seq<BoundaryDescriptor>,
    outs: Seq<(usize, BoundaryDescriptor)>,
    weights: Seq<Vec<i64>>,
    i: int,
)
    ensures
        boundaries(ins).len() == ins.len(),
        0 <= i < ins.len() ==> boundaries(ins)[i] == ins[i]@,
        indexed_boundaries(outs).len() == outs.len(),
        0 <= i < outs.len() ==> indexed_boundaries(outs)[i].0 == outs[i].0 && indexed_boundaries(
            outs,
        )[i].1 == outs[i].1@,
        weight_rows(weights).len() == weights.len(),
        0 <= i < weights.len() ==> weight_rows(weights)[i] == weights[i]@,
{
}

/// The shape of an empty program has no part at all.
pub proof fn lemma_empty_shape()
    ensures
        empty_shape().steps.len() == 0 && empty_shape().domains.len() == 0,
        empty_shape().input_shapes.len() == 0 && empty_shape().weight_shapes.len() == 0,
        empty_shape().public_outputs.len() == 0 && empty_shape().fixed_public_weights.len() == 0,
        !empty_shape().bounded() && empty_shape().leaf_prefix_len == 0,
{
}

} // verus!
