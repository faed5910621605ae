//! What instructions compute, over plain integers: raw values of fixed-point numbers.
use vstd::prelude::*;
use vstd::string::*;

use crate::chips::dot_general::{accumulation_overflow_text, is_i128};
use crate::chips::patch_embed::copied;
use crate::chips::reduce::total;
use crate::fixed_point::{
    is_i64, requantize_mul_text, requantize_raw_text, rescaled, I18,
};
use crate::isa::{EltwiseOp, Instruction, Operation, ReduceOp};
use crate::text::{decimal, unsigned_text};

verus! {

/// Where an instruction's input comes from.
#[derive(Debug, Clone, Copy, PartialEq, Eq, Hash, Structural)]
pub enum RegisterRef {
    /// An input tensor of the program.
    Input(usize),
    /// A weight tensor of the program.
    Weight(usize),
    /// The output of an earlier instruction.
    Virtual(usize),
}

/// An instruction and the registers it reads.
#[derive(Debug)]
pub struct AssemblerInstruction {
    pub instruction: Instruction,
    pub inputs: Vec<RegisterRef>,
}

/// A program with the values of its inputs and weights, each tensor row by row. The output of
/// the `i`-th instruction is the `i`-th virtual register.
#[derive(Debug)]
pub struct AssemblerProgram {
    pub instructions: Vec<AssemblerInstruction>,
    pub input_values: Vec<Vec<I18>>,
    pub weight_values: Vec<Vec<I18>>,
}

/// What an instruction is and reads.
#[verifier::ext_equal]
pub struct Step {
    pub operation: Operation,
    pub inputs: Seq<RegisterRef>,
}

impl View for AssemblerInstruction {
    type V = Step;

    open spec fn view(&self) -> Step {
        Step { operation: self.instruction@, inputs: self.inputs@ }
    }
}

impl Clone for AssemblerInstruction {
    fn clone(&self) -> (r: Self)
        ensures
            r@ == self@,
    {
        let mut inputs: Vec<RegisterRef> = Vec::new();
        let mut i: usize = 0;
        while i < self.inputs.len()
            invariant
                i <= self.inputs@.len(),
                inputs@ == self.inputs@.take(i as int),
            decreases self.inputs@.len() - i,
        {
            inputs.push(self.inputs[i]);
            assert(self.inputs@.take(i + 1) =~= self.inputs@.take(i as int).push(
                self.inputs@[i as int],
            ));
            i += 1;
        }
        assert(self.inputs@.take(i as int) =~= self.inputs@);
        AssemblerInstruction { instruction: self.instruction.clone(), inputs }
    }
}

/// What instructions are and read.
pub open spec fn steps_of(instructions: Seq<AssemblerInstruction>) -> Seq<Step> {
    Seq::new(instructions.len(), |i: int| instructions[i]@)
}

/// The numbers of tensors.
pub open spec fn tensors_of(tensors: Seq<Vec<I18>>) -> Seq<Seq<I18>> {
    Seq::new(tensors.len(), |i: int| tensors[i]@)
}

/// The lengths of tensors.
pub open spec fn lengths(tensors: Seq<Vec<I18>>) -> Seq<usize> {
    Seq::new(tensors.len(), |i: int| tensors[i]@.len() as usize)
}

/// A copy of instructions.
pub(crate) fn copied_instructions(instructions: &Vec<AssemblerInstruction>) -> (r: Vec<
    AssemblerInstruction,
>)
    ensures
        steps_of(r@) == steps_of(instructions@),
{
    let mut r: Vec<AssemblerInstruction> = Vec::new();
    let mut i: usize = 0;
    while i < instructions.len()
        invariant
            i <= instructions@.len(),
            r@.len() == i,
            forall|j: int| 0 <= j < i ==> (#[trigger] r@[j])@ == instructions@[j]@,
        decreases instructions@.len() - i,
    {
        r.push(instructions[i].clone());
        i += 1;
    }
    assert(steps_of(r@) =~= steps_of(instructions@));
    r
}

/// A copy of tensors.
pub(crate) fn copied_tensors(tensors: &Vec<Vec<I18>>) -> (r: Vec<Vec<I18>>)
    ensures
        tensors_of(r@) == tensors_of(tensors@),
{
    let mut r: Vec<Vec<I18>> = Vec::new();
    let mut i: usize = 0;
    while i < tensors.len()
        invariant
            i <= tensors@.len(),
            r@.len() == i,
            forall|j: int| 0 <= j < i ==> (#[trigger] r@[j])@ == tensors@[j]@,
        decreases tensors@.len() - i,
    {
        r.push(copied(&tensors[i]));
        i += 1;
    }
    assert(tensors_of(r@) =~= tensors_of(tensors@));
    r
}

impl Clone for AssemblerProgram {
    fn clone(&self) -> (r: Self)
        ensures
            steps_of(r.instructions@) == steps_of(self.instructions@),
            tensors_of(r.input_values@) == tensors_of(self.input_values@),
            tensors_of(r.weight_values@) == tensors_of(self.weight_values@),
    {
        AssemblerProgram {
            instructions: copied_instructions(&self.instructions),
            input_values: copied_tensors(&self.input_values),
            weight_values: copied_tensors(&self.weight_values),
        }
    }
}

/// The values of a program's registers, row by row.
pub struct Registers {
    pub inputs: Seq<Seq<int>>,
    pub weights: Seq<Seq<int>>,
    pub virtuals: Seq<Seq<int>>,
}

impl Registers {
    /// The register exists.
    pub open spec fn has(self, r: RegisterRef) -> bool {
        match r {
            RegisterRef::Input(i) => i < self.inputs.len(),
            RegisterRef::Weight(i) => i < self.weights.len(),
            RegisterRef::Virtual(i) => i < self.virtuals.len(),
        }
    }

    /// The values of an existing register.
    pub open spec fn get(self, r: RegisterRef) -> Seq<int> {
        match r {
            RegisterRef::Input(i) => self.inputs[i as int],
            RegisterRef::Weight(i) => self.weights[i as int],
            RegisterRef::Virtual(i) => self.virtuals[i as int],
        }
    }

    /// The registers before the `n`-th instruction.
    pub open spec fn before(self, n: int) -> Registers {
        Registers { virtuals: self.virtuals.take(n), ..self }
    }
}

/// The position of element `(i, l)` of an `m` by `k` matrix, stored row by row or transposed.
pub open spec fn index_a(transposed: bool, m: int, k: int, i: int, l: int) -> int {
    if transposed {
        l * m + i
    } else {
        i * k + l
    }
}

/// The position of element `(l, j)` of a `k` by `n` matrix, stored row by row or transposed.
pub open spec fn index_b(transposed: bool, n: int, k: int, l: int, j: int) -> int {
    if transposed {
        j * k + l
    } else {
        l * n + j
    }
}

/// The shape of a matrix product.
pub struct Product {
    pub m: int,
    pub n: int,
    pub k: int,
    pub trans_a: bool,
    pub trans_b: bool,
}

impl Product {
    /// The terms of the sum that is element `(i, j)`.
    pub open spec fn terms(self, a: Seq<int>, b: Seq<int>, i: int, j: int) -> Seq<int> {
        Seq::new(
            self.k as nat,
            |l: int|
                a[index_a(self.trans_a, self.m, self.k, i, l)] * b[index_b(
                    self.trans_b,
                    self.n,
                    self.k,
                    l,
                    j,
                )],
        )
    }

    /// The requantized matrix product, row by row.
    pub open spec fn of(self, a: Seq<int>, b: Seq<int>) -> Seq<int> {
        Seq::new(
            (self.m * self.n) as nat,
            |t: int| rescaled(total(self.terms(a, b, t / self.n, t % self.n))),
        )
    }

    /// Element `t` stays in range: its partial sums are 128-bit integers and its value is a
    /// 64-bit integer.
    pub open spec fn fits_at(self, a: Seq<int>, b: Seq<int>, t: int) -> bool {
        sum_fits(self.terms(a, b, t / self.n, t % self.n))
    }

    /// Element `t` is the first that does not stay in range.
    pub open spec fn first_misfit(self, a: Seq<int>, b: Seq<int>, t: int) -> bool {
        &&& 0 <= t < self.m * self.n
        &&& !self.fits_at(a, b, t)
        &&& forall|s: int| 0 <= s < t ==> #[trigger] self.fits_at(a, b, s)
    }

    pub open spec fn fits(self, a: Seq<int>, b: Seq<int>) -> bool {
        forall|t: int| 0 <= t < self.m * self.n ==> #[trigger] self.fits_at(a, b, t)
    }

    /// The text of the error for an element that does not stay in range.
    pub open spec fn misfit_text(self, a: Seq<int>, b: Seq<int>, t: int) -> Seq<char> {
        sum_misfit_text(self.terms(a, b, t / self.n, t % self.n))
    }
}

pub open spec fn sum_misfit_text(terms: Seq<int>) -> Seq<char> {
    if partials_fit(terms) {
        requantize_raw_text(total(terms))
    } else {
        accumulation_overflow_text()
    }
}

/// The partial sums of terms are 128-bit integers.
pub open spec fn partials_fit(terms: Seq<int>) -> bool {
    forall|i: int| 0 <= i <= terms.len() ==> is_i128(total(#[trigger] terms.take(i)))
}

pub open spec fn sum_fits(terms: Seq<int>) -> bool {
    partials_fit(terms) && is_i64(rescaled(total(terms)))
}

/// Two lengths are broadcast-compatible: neither is zero, and the longer is a multiple of the
/// shorter.
pub open spec fn broadcasts(len_a: int, len_b: int) -> bool {
    &&& len_a > 0 && len_b > 0
    &&& longer(len_a, len_b) % len_a == 0 && longer(len_a, len_b) % len_b == 0
}

pub open spec fn longer(len_a: int, len_b: int) -> int {
    if len_a >= len_b {
        len_a
    } else {
        len_b
    }
}

/// An elementwise operation on two numbers.
pub open spec fn apply(op: EltwiseOp, x: int, y: int) -> int {
    match op {
        EltwiseOp::Add => x + y,
        _ => rescaled(x * y),
    }
}

/// An elementwise operation, the shorter operand repeated.
pub open spec fn elementwise(op: EltwiseOp, a: Seq<int>, b: Seq<int>) -> Seq<int> {
    Seq::new(
        longer(a.len() as int, b.len() as int) as nat,
        |t: int| apply(op, a[t % a.len() as int], b[t % b.len() as int]),
    )
}

/// Element `t` of an elementwise operation is a 64-bit integer.
pub open spec fn elementwise_fits_at(op: EltwiseOp, a: Seq<int>, b: Seq<int>, t: int) -> bool {
    is_i64(elementwise(op, a, b)[t])
}

pub open spec fn elementwise_fits(op: EltwiseOp, a: Seq<int>, b: Seq<int>) -> bool {
    forall|t: int|
        0 <= t < longer(a.len() as int, b.len() as int) ==> #[trigger] elementwise_fits_at(
            op,
            a,
            b,
            t,
        )
}

/// Element `t` of an elementwise operation is the first that does not stay in range.
pub open spec fn elementwise_first_misfit(
    op: EltwiseOp,
    a: Seq<int>,
    b: Seq<int>,
    t: int,
) -> bool {
    &&& 0 <= t < longer(a.len() as int, b.len() as int)
    &&& !elementwise_fits_at(op, a, b, t)
    &&& forall|s: int| 0 <= s < t ==> #[trigger] elementwise_fits_at(op, a, b, s)
}

/// The text of the error for an element that does not stay in range.
pub open spec fn elementwise_misfit_text(
    op: EltwiseOp,
    a: Seq<int>,
    b: Seq<int>,
    t: int,
) -> Seq<char> {
    match op {
        EltwiseOp::Add => "eltwise add overflow"@,
        _ => requantize_mul_text(a[t % a.len() as int], b[t % b.len() as int]),
    }
}

/// The name of a reduction.
pub open spec fn reduce_name(op: ReduceOp) -> Seq<char> {
    match op {
        ReduceOp::Sum => "Sum"@,
        ReduceOp::Mean => "Mean"@,
    }
}

/// How an instruction that no chip takes is named in an error.
pub open spec fn unsupported_name(i: Instruction) -> Seq<char> {
    match i {
        Instruction::Softmax { axis_dim } => "Softmax { axis_dim: "@ + decimal(axis_dim as int)
            + " }"@,
        Instruction::Gelu => "Gelu"@,
        Instruction::LayerNorm { dim, epsilon_milli } => "LayerNorm { dim: "@ + decimal(dim as int)
            + ", epsilon_milli: "@ + decimal(epsilon_milli as int) + " }"@,
        Instruction::Reduce { op, axis } => "Reduce { op: "@ + reduce_name(op) + ", axis: "@
            + decimal(axis as int) + " }"@,
        Instruction::EmbedLookup { table_size, embed_dim } => "EmbedLookup { table_size: "@
            + decimal(table_size as int) + ", embed_dim: "@ + decimal(embed_dim as int) + " }"@,
        Instruction::PatchEmbed { patch_len, embed_dim } => "PatchEmbed { patch_len: "@ + decimal(
            patch_len as int,
        ) + ", embed_dim: "@ + decimal(embed_dim as int) + " }"@,
        _ => "Eltwise { op: Relu }"@,
    }
}

/// No chip takes the instruction.
pub open spec fn unsupported(i: Instruction) -> bool {
    match i {
        Instruction::DotGeneral { m, n, k, batch_dims, trans_a, trans_b } => false,
        Instruction::RmsNorm { dim, epsilon_milli } => false,
        Instruction::Eltwise { op } => op is Relu,
        _ => true,
    }
}

/// The name of an instruction that no chip takes.
pub fn unsupported_text(i: &Instruction) -> (r: String)
    requires
        unsupported(*i),
    ensures
        r@ == unsupported_name(*i),
{
    match i {
        Instruction::Softmax { axis_dim } => {
            let mut r = String::from_str("Softmax { axis_dim: ");
            r.append(unsigned_text(*axis_dim as u128).as_str());
            r.append(" }");
            r
        },
        Instruction::Gelu => String::from_str("Gelu"),
        Instruction::LayerNorm { dim, epsilon_milli } => {
            let mut r = String::from_str("LayerNorm { dim: ");
            r.append(unsigned_text(*dim as u128).as_str());
            r.append(", epsilon_milli: ");
            r.append(unsigned_text(*epsilon_milli as u128).as_str());
            r.append(" }");
            r
        },
        Instruction::Reduce { op, axis } => {
            let mut r = String::from_str("Reduce { op: ");
            match op {
                ReduceOp::Sum => {
                    r.append("Sum");
                },
                ReduceOp::Mean => {
                    r.append("Mean");
                },
            }
            r.append(", axis: ");
            r.append(unsigned_text(*axis as u128).as_str());
            r.append(" }");
            r
        },
        Instruction::EmbedLookup { table_size, embed_dim } => {
            let mut r = String::from_str("EmbedLookup { table_size: ");
            r.append(unsigned_text(*table_size as u128).as_str());
            r.append(", embed_dim: ");
            r.append(unsigned_text(*embed_dim as u128).as_str());
            r.append(" }");
            r
        },
        Instruction::PatchEmbed { patch_len, embed_dim } => {
            let mut r = String::from_str("PatchEmbed { patch_len: ");
            r.append(unsigned_text(*patch_len as u128).as_str());
            r.append(", embed_dim: ");
            r.append(unsigned_text(*embed_dim as u128).as_str());
            r.append(" }");
            r
        },
        _ => String::from_str("Eltwise { op: Relu }"),
    }
}

/// A position in a matrix is below its size.
pub proof fn lemma_index(rows: int, cols: int, i: int, l: int)
    requires
        0 <= i < rows,
        0 <= l < cols,
    ensures
        0 <= i * cols + l < rows * cols,
        (i * cols + l) / cols == i,
        (i * cols + l) % cols == l,
{
    assert(i * cols + l < rows * cols && 0 <= i * cols) by (nonlinear_arith)
        requires
            0 <= i < rows,
            0 <= l < cols,
    ;
    vstd::arithmetic::div_mod::lemma_fundamental_div_mod_converse(i * cols + l, cols, i, l);
}

pub proof fn lemma_index_a(transposed: bool, m: int, k: int, i: int, l: int)
    requires
        0 <= i < m,
        0 <= l < k,
    ensures
        0 <= index_a(transposed, m, k, i, l) < m * k,
{
    lemma_index(m, k, i, l);
    lemma_index(k, m, l, i);
    vstd::arithmetic::mul::lemma_mul_is_commutative(m, k);
}

pub proof fn lemma_index_b(transposed: bool, n: int, k: int, l: int, j: int)
    requires
        0 <= l < k,
        0 <= j < n,
    ensures
        0 <= index_b(transposed, n, k, l, j) < k * n,
{
    lemma_index(k, n, l, j);
    lemma_index(n, k, j, l);
    vstd::arithmetic::mul::lemma_mul_is_commutative(n, k);
}

} // verus!
