//! The circuit of a program.
use vstd::prelude::*;
use vstd::string::*;

use crate::assembler::semantics::{lengths, steps_of, tensors_of, AssemblerProgram};
use crate::chips::poseidon_boundary::descriptor::{Boundary, BoundaryDescriptor, BoundaryRole};
use crate::chips::poseidon_boundary::identity::values_of;
use crate::field::Fr;
use crate::fixed_point::I18;
use crate::program_circuit::params::{
    boundaries, indexed_boundaries, program_shape, weight_rows, AssemblerCircuitParams,
    CircuitShape, RmsNormDomains,
};

verus! {

/// The count of a leaf's public values.
pub const LEAF_PREFIX_LEN: usize = 17;

/// How much may be folded into the commitments of a circuit.
pub const MAX_COMMITMENT_WORK: usize = 12000;

/// A program with its witness values, and what its circuit's shape depends on.
pub struct AssemblerCircuit {
    pub params: AssemblerCircuitParams,
    pub program: AssemblerProgram,
    pub has_known_witnesses: bool,
    pub leaf_prefix: Vec<Fr>,
}

pub open spec fn outputs_text() -> Seq<char> {
    "public output indices must be strictly sorted, unique, and in range"@
}

pub open spec fn boundary_text() -> Seq<char> {
    "invalid boundary commitment public layout"@
}

/// Indices are strictly sorted and below a bound.
pub open spec fn valid_indices(indices: Seq<usize>, bound: nat) -> bool {
    &&& forall|i: int|
        0 <= i && i + 1 < indices.len() ==> #[trigger] indices[i] < indices[i + 1]
    &&& forall|i: int| 0 <= i < indices.len() ==> #[trigger] indices[i] < bound
}

/// What a boundary's commitment folds.
pub open spec fn boundary_work(b: Boundary) -> int {
    b.canonical().len() + b.element_count + 2
}

pub open spec fn input_work(bs: Seq<Boundary>) -> int
    decreases bs.len(),
{
    if bs.len() == 0 {
        0
    } else {
        input_work(bs.drop_last()) + boundary_work(bs.last())
    }
}

pub open spec fn output_work(bs: Seq<(usize, Boundary)>) -> int
    decreases bs.len(),
{
    if bs.len() == 0 {
        0
    } else {
        output_work(bs.drop_last()) + boundary_work(bs.last().1)
    }
}

/// An input boundary describes a tensor.
pub open spec fn describes_input(b: Boundary, tensor: Seq<I18>) -> bool {
    b.role == BoundaryRole::Input && b.element_count == tensor.len() && b.error() is None
}

/// An output boundary describes an instruction's output.
pub open spec fn describes_output(o: (usize, Boundary), instructions: nat) -> bool {
    o.0 < instructions && o.1.role == BoundaryRole::Output && o.1.error() is None
}

/// The boundaries fit a program: each input has its own, the outputs are in order, there are as
/// many leaf values as there should be, and there is not too much to fold.
pub open spec fn valid_boundaries(
    program: AssemblerProgram,
    inputs: Seq<Boundary>,
    outputs: Seq<(usize, Boundary)>,
    leaf: nat,
) -> bool {
    &&& inputs.len() == program.input_values@.len()
    &&& forall|i: int|
        0 <= i < inputs.len() ==> describes_input(
            #[trigger] inputs[i],
            program.input_values@[i]@,
        )
    &&& forall|i: int|
        0 <= i && i + 1 < outputs.len() ==> (#[trigger] outputs[i]).0 < outputs[i + 1].0
    &&& forall|i: int|
        0 <= i < outputs.len() ==> describes_output(
            #[trigger] outputs[i],
            program.instructions@.len(),
        )
    &&& leaf == LEAF_PREFIX_LEN
    &&& input_work(inputs) + output_work(outputs) <= MAX_COMMITMENT_WORK
}

/// The raw values of weights.
pub open spec fn raw_weights(tensors: Seq<Vec<I18>>) -> Seq<Seq<i64>> {
    Seq::new(tensors.len(), |i: int| raw_tensor(tensors[i]@))
}

pub open spec fn raw_tensor(tensor: Seq<I18>) -> Seq<i64> {
    Seq::new(tensor.len(), |i: int| tensor[i]@ as i64)
}

/// Equal tensors have equal lengths and raw values.
proof fn lemma_same_tensors(xs: Seq<Vec<I18>>, ys: Seq<Vec<I18>>)
    requires
        tensors_of(xs) == tensors_of(ys),
    ensures
        xs.len() == ys.len(),
        forall|i: int| 0 <= i < xs.len() ==> (#[trigger] xs[i])@ == ys[i]@,
        lengths(xs) == lengths(ys),
        raw_weights(xs) == raw_weights(ys),
{
    assert(tensors_of(xs).len() == xs.len() && tensors_of(ys).len() == ys.len());
    assert forall|i: int| 0 <= i < xs.len() implies (#[trigger] xs[i])@ == ys[i]@ by {
        assert(tensors_of(xs)[i] == tensors_of(ys)[i]);
    }
    assert(lengths(xs) =~= lengths(ys));
    assert(raw_weights(xs) =~= raw_weights(ys));
}

fn indices_valid(indices: &Vec<usize>, bound: usize) -> (r: bool)
    ensures
        r == valid_indices(indices@, bound as nat),
{
    let mut i: usize = 0;
    while i < indices.len()
        invariant
            i <= indices@.len(),
            forall|j: int| 0 <= j && j + 1 < i ==> #[trigger] indices@[j] < indices@[j + 1],
            forall|j: int| 0 <= j < i ==> #[trigger] indices@[j] < bound,
        decreases indices@.len() - i,
    {
        if indices[i] >= bound {
            assert(indices@[i as int] >= bound);
            return false;
        }
        if i > 0 && indices[i - 1] >= indices[i] {
            assert(!(indices@[i - 1] < indices@[i - 1 + 1]));
            return false;
        }
        i += 1;
    }
    true
}

/// More work, unless it is too much.
fn add_work(work: usize, descriptor: &BoundaryDescriptor) -> (r: Option<usize>)
    requires
        work <= MAX_COMMITMENT_WORK,
    ensures
        match r {
            Some(w) => w == work + boundary_work(descriptor@) && w <= MAX_COMMITMENT_WORK,
            None => work + boundary_work(descriptor@) > MAX_COMMITMENT_WORK,
        },
{
    let fields = descriptor.canonical_fields();
    let count: usize = descriptor.element_count();
    assert(values_of(fields@).len() == fields@.len());
    let room: usize = MAX_COMMITMENT_WORK - work;
    if fields.len() > room || count > room - fields.len() || room - fields.len() - count < 2 {
        return None;
    }
    Some(work + fields.len() + count + 2)
}

proof fn lemma_work_grows(bs: Seq<Boundary>, n: int)
    requires
        0 <= n <= bs.len(),
    ensures
        0 <= input_work(bs.take(n)) <= input_work(bs),
    decreases bs.len() - n,
{
    if n == bs.len() {
        assert(bs.take(n) =~= bs);
        lemma_work_positive(bs);
    } else {
        lemma_work_grows(bs, n + 1);
        assert(bs.take(n + 1).drop_last() =~= bs.take(n));
        lemma_work_positive(bs.take(n));
    }
}

proof fn lemma_work_positive(bs: Seq<Boundary>)
    ensures
        input_work(bs) >= 0,
    decreases bs.len(),
{
    if bs.len() > 0 {
        lemma_work_positive(bs.drop_last());
    }
}

proof fn lemma_output_work_grows(bs: Seq<(usize, Boundary)>, n: int)
    requires
        0 <= n <= bs.len(),
    ensures
        output_work(bs.take(n)) <= output_work(bs),
    decreases bs.len() - n,
{
    if n == bs.len() {
        assert(bs.take(n) =~= bs);
    } else {
        lemma_output_work_grows(bs, n + 1);
        assert(bs.take(n + 1).drop_last() =~= bs.take(n));
    }
}

proof fn lemma_output_work_positive(bs: Seq<(usize, Boundary)>)
    ensures
        output_work(bs) >= 0,
    decreases bs.len(),
{
    if bs.len() > 0 {
        lemma_output_work_positive(bs.drop_last());
    }
}

/// Whether boundaries fit a program.
fn boundaries_valid(
    program: &AssemblerProgram,
    inputs: &Vec<BoundaryDescriptor>,
    outputs: &Vec<(usize, BoundaryDescriptor)>,
    leaf: usize,
) -> (r: bool)
    ensures
        r == valid_boundaries(
            *program,
            boundaries(inputs@),
            indexed_boundaries(outputs@),
            leaf as nat,
        ),
{
    let ghost ins = boundaries(inputs@);
    let ghost outs = indexed_boundaries(outputs@);
    if inputs.len() != program.input_values.len() || leaf != LEAF_PREFIX_LEN {
        return false;
    }
    let mut work: usize = 0;
    let mut i: usize = 0;
    proof {
        lemma_output_work_positive(outs);
        assert(ins.take(0) =~= Seq::empty());
    }
    while i < inputs.len()
        invariant
            i <= inputs@.len(),
            inputs@.len() == program.input_values@.len(),
            ins == boundaries(inputs@),
            outs == indexed_boundaries(outputs@),
            output_work(outs) >= 0,
            work <= MAX_COMMITMENT_WORK,
            work == input_work(ins.take(i as int)),
            forall|j: int|
                0 <= j < i ==> describes_input(#[trigger] ins[j], program.input_values@[j]@),
        decreases inputs@.len() - i,
    {
        let d = &inputs[i];
        assert(ins[i as int] == d@);
        match d.role() {
            BoundaryRole::Input => {},
            BoundaryRole::Output => {
                assert(!describes_input(ins[i as int], program.input_values@[i as int]@));
                return false;
            },
        }
        if d.element_count() != program.input_values[i].len() || d.validate().is_err() {
            assert(!describes_input(ins[i as int], program.input_values@[i as int]@));
            return false;
        }
        proof {
            lemma_work_grows(ins, i + 1);
            assert(ins.take(i + 1).drop_last() =~= ins.take(i as int));
        }
        match add_work(work, d) {
            Some(w) => {
                work = w;
            },
            None => {
                return false;
            },
        }
        i += 1;
    }
    assert(ins.take(i as int) =~= ins);
    assert(outs.take(0) =~= Seq::empty());
    let mut k: usize = 0;
    while k < outputs.len()
        invariant
            k <= outputs@.len(),
            outs == indexed_boundaries(outputs@),
            ins == boundaries(inputs@),
            work <= MAX_COMMITMENT_WORK,
            work == input_work(ins) + output_work(outs.take(k as int)),
            forall|j: int| 0 <= j && j + 1 < k ==> (#[trigger] outs[j]).0 < outs[j + 1].0,
            forall|j: int|
                0 <= j < k ==> describes_output(#[trigger] outs[j], program.instructions@.len()),
        decreases outputs@.len() - k,
    {
        let index: usize = outputs[k].0;
        let d = &outputs[k].1;
        assert(outs[k as int] == (index, d@));
        if k > 0 && outputs[k - 1].0 >= index {
            assert(!(outs[k - 1].0 < outs[k - 1 + 1].0));
            return false;
        }
        match d.role() {
            BoundaryRole::Output => {},
            BoundaryRole::Input => {
                assert(!describes_output(outs[k as int], program.instructions@.len()));
                return false;
            },
        }
        if index >= program.instructions.len() || d.validate().is_err() {
            assert(!describes_output(outs[k as int], program.instructions@.len()));
            return false;
        }
        proof {
            lemma_output_work_grows(outs, k + 1);
            assert(outs.take(k + 1).drop_last() =~= outs.take(k as int));
        }
        match add_work(work, d) {
            Some(w) => {
                work = w;
            },
            None => {
                return false;
            },
        }
        k += 1;
    }
    assert(outs.take(k as int) =~= outs);
    true
}

/// The raw values of weights.
fn weight_raws(tensors: &Vec<Vec<I18>>) -> (r: Vec<Vec<i64>>)
    ensures
        weight_rows(r@) == raw_weights(tensors@),
{
    let mut r: Vec<Vec<i64>> = Vec::new();
    let mut i: usize = 0;
    while i < tensors.len()
        invariant
            i <= tensors@.len(),
            r@.len() == i,
            forall|j: int| 0 <= j < i ==> (#[trigger] r@[j])@ == raw_tensor(tensors@[j]@),
        decreases tensors@.len() - i,
    {
        let tensor = &tensors[i];
        let mut row: Vec<i64> = Vec::new();
        let mut j: usize = 0;
        while j < tensor.len()
            invariant
                j <= tensor@.len(),
                row@ == raw_tensor(tensor@).take(j as int),
            decreases tensor@.len() - j,
        {
            row.push(tensor[j].raw());
            assert(raw_tensor(tensor@).take(j + 1) =~= raw_tensor(tensor@).take(j as int).push(
                raw_tensor(tensor@)[j as int],
            ));
            j += 1;
        }
        assert(raw_tensor(tensor@).take(j as int) =~= raw_tensor(tensor@));
        r.push(row);
        i += 1;
    }
    assert(weight_rows(r@) =~= raw_weights(tensors@));
    r
}

/// A copy of field elements.
fn copied_fields(values: &Vec<Fr>) -> (r: Vec<Fr>)
    ensures
        r@ == values@,
{
    let mut r: Vec<Fr> = Vec::new();
    let mut i: usize = 0;
    while i < values.len()
        invariant
            i <= values@.len(),
            r@ == values@.take(i as int),
        decreases values@.len() - i,
    {
        r.push(values[i]);
        assert(values@.take(i + 1) =~= values@.take(i as int).push(values@[i as int]));
        i += 1;
    }
    assert(values@.take(i as int) =~= values@);
    r
}

impl AssemblerCircuit {
    pub open spec fn shape(self) -> CircuitShape {
        self.params@
    }

    pub open spec fn known(self) -> bool {
        self.has_known_witnesses
    }

    pub open spec fn leaf(self) -> Seq<int> {
        values_of(self.leaf_prefix@)
    }

    /// The shape is that of the program: either inputs, weights and selected outputs are public,
    /// or boundaries are.
    pub open spec fn wf(self) -> bool {
        let shape = self.shape();
        &&& shape == (CircuitShape {
            boundary_inputs: shape.boundary_inputs,
            boundary_outputs: shape.boundary_outputs,
            leaf_prefix_len: shape.leaf_prefix_len,
            fixed_public_weights: shape.fixed_public_weights,
            ..program_shape(self.program, shape.domains, shape.public_outputs)
        })
        &&& valid_indices(shape.public_outputs, self.program.instructions@.len())
        &&& shape.bounded() ==> {
            &&& valid_boundaries(
                self.program,
                shape.boundary_inputs,
                shape.boundary_outputs,
                self.leaf().len(),
            )
            &&& shape.leaf_prefix_len == self.leaf().len()
            &&& shape.fixed_public_weights == raw_weights(self.program.weight_values@)
        }
    }

    /// The circuit whose public output is the last instruction's.
    pub fn new(program: AssemblerProgram, rms_norm_domains: RmsNormDomains) -> (r: Self)
        ensures
            r.wf(),
            r.program == program,
            r.known(),
            r.leaf() == Seq::<int>::empty(),
            r.shape() == program_shape(
                program,
                rms_norm_domains@,
                if program.instructions@.len() == 0 {
                    Seq::empty()
                } else {
                    seq![(program.instructions@.len() - 1) as usize]
                },
            ),
    {
        let mut indices: Vec<usize> = Vec::new();
        if program.instructions.len() > 0 {
            indices.push(program.instructions.len() - 1);
        }
        let params = AssemblerCircuitParams::from_program(&program, rms_norm_domains, indices);
        let r = AssemblerCircuit {
            params,
            program,
            has_known_witnesses: true,
            leaf_prefix: Vec::new(),
        };
        proof {
            assert(indices@ =~= if program.instructions@.len() == 0 {
                Seq::empty()
            } else {
                seq![(program.instructions@.len() - 1) as usize]
            });
            assert(r.leaf() =~= Seq::<int>::empty());
        }
        r
    }

    /// The circuit whose public outputs are those of the given instructions.
    pub fn new_with_public_outputs(
        program: AssemblerProgram,
        rms_norm_domains: RmsNormDomains,
        public_output_indices: Vec<usize>,
    ) -> (res: Result<Self, String>)
        ensures
            match res {
                Ok(r) => {
                    &&& valid_indices(public_output_indices@, program.instructions@.len())
                    &&& r.wf()
                    &&& r.program == program
                    &&& r.known()
                    &&& r.leaf() == Seq::<int>::empty()
                    &&& r.shape() == program_shape(
                        program,
                        rms_norm_domains@,
                        public_output_indices@,
                    )
                },
                Err(e) => !valid_indices(public_output_indices@, program.instructions@.len())
                    && e@ == outputs_text(),
            },
    {
        if !indices_valid(&public_output_indices, program.instructions.len()) {
            return Err(
                String::from_str(
                    "public output indices must be strictly sorted, unique, and in range",
                ),
            );
        }
        let params = AssemblerCircuitParams::from_program(
            &program,
            rms_norm_domains,
            public_output_indices,
        );
        let r = AssemblerCircuit {
            params,
            program,
            has_known_witnesses: true,
            leaf_prefix: Vec::new(),
        };
        assert(r.leaf() =~= Seq::<int>::empty());
        Ok(r)
    }

    /// The circuit that commits to boundaries, with its weights fixed.
    pub fn new_with_boundary_commitments(
        program: AssemblerProgram,
        rms_norm_domains: RmsNormDomains,
        boundary_inputs: Vec<BoundaryDescriptor>,
        boundary_outputs: Vec<(usize, BoundaryDescriptor)>,
        leaf_prefix: Vec<Fr>,
    ) -> (res: Result<Self, String>)
        ensures
            ({
                let ins = boundaries(boundary_inputs@);
                let outs = indexed_boundaries(boundary_outputs@);
                match res {
                    Ok(r) => {
                        &&& valid_boundaries(program, ins, outs, leaf_prefix@.len())
                        &&& r.wf()
                        &&& r.program == program
                        &&& r.known()
                        &&& r.leaf() == values_of(leaf_prefix@)
                        &&& r.shape() == (CircuitShape {
                            boundary_inputs: ins,
                            boundary_outputs: outs,
                            leaf_prefix_len: leaf_prefix@.len() as usize,
                            fixed_public_weights: raw_weights(program.weight_values@),
                            ..program_shape(program, rms_norm_domains@, Seq::empty())
                        })
                    },
                    Err(e) => !valid_boundaries(program, ins, outs, leaf_prefix@.len()) && e@
                        == boundary_text(),
                }
            }),
    {
        if !boundaries_valid(&program, &boundary_inputs, &boundary_outputs, leaf_prefix.len()) {
            return Err(String::from_str("invalid boundary commitment public layout"));
        }
        let none: Vec<usize> = Vec::new();
        assert(none@ =~= Seq::empty());
        let mut params = AssemblerCircuitParams::from_program(&program, rms_norm_domains, none);
        params.boundary_inputs = boundary_inputs;
        params.boundary_outputs = boundary_outputs;
        params.leaf_prefix_len = leaf_prefix.len();
        params.fixed_public_weights = weight_raws(&program.weight_values);
        let r = AssemblerCircuit { params, program, has_known_witnesses: true, leaf_prefix };
        proof {
            assert(r.shape() =~= (CircuitShape {
                boundary_inputs: boundaries(boundary_inputs@),
                boundary_outputs: indexed_boundaries(boundary_outputs@),
                leaf_prefix_len: leaf_prefix@.len() as usize,
                fixed_public_weights: raw_weights(program.weight_values@),
                ..program_shape(program, rms_norm_domains@, Seq::empty())
            }));
        }
        Ok(r)
    }

    /// The circuit of an empty program.
    pub fn empty() -> (r: Self)
        ensures
            r.wf(),
            r.known(),
            r.program.instructions@.len() == 0,
            r.program.input_values@.len() == 0,
            r.program.weight_values@.len() == 0,
            r.leaf() == Seq::<int>::empty(),
            r.shape() == crate::program_circuit::params::empty_shape(),
    {
        let program = AssemblerProgram {
            instructions: Vec::new(),
            input_values: Vec::new(),
            weight_values: Vec::new(),
        };
        let r = AssemblerCircuit::new(program, RmsNormDomains::new());
        assert(r.shape() =~= crate::program_circuit::params::empty_shape());
        r
    }

    pub fn params(&self) -> (r: &AssemblerCircuitParams)
        ensures
            r@ == self.shape(),
    {
        &self.params
    }

    pub fn has_known_witnesses(&self) -> (r: bool)
        ensures
            r == self.known(),
    {
        self.has_known_witnesses
    }

    /// The same circuit, its witness values marked unknown.
    pub fn without_witnesses(&self) -> (r: Self)
        ensures
            !r.known(),
            self.wf() ==> r.wf(),
            r.shape() == self.shape(),
            r.leaf() == self.leaf(),
            steps_of(r.program.instructions@) == steps_of(self.program.instructions@),
            tensors_of(r.program.input_values@) == tensors_of(self.program.input_values@),
            tensors_of(r.program.weight_values@) == tensors_of(self.program.weight_values@),
    {
        let r = AssemblerCircuit {
            params: self.params.clone(),
            program: self.program.clone(),
            has_known_witnesses: false,
            leaf_prefix: copied_fields(&self.leaf_prefix),
        };
        proof {
            lemma_same_tensors(r.program.input_values@, self.program.input_values@);
            lemma_same_tensors(r.program.weight_values@, self.program.weight_values@);
            assert(steps_of(r.program.instructions@).len() == r.program.instructions@.len());
            assert(steps_of(self.program.instructions@).len() == self.program.instructions@.len());
            if self.wf() {
                let shape = self.shape();
                assert(program_shape(r.program, shape.domains, shape.public_outputs)
                    == program_shape(self.program, shape.domains, shape.public_outputs));
            }
        }
        r
    }
}

} // verus!
