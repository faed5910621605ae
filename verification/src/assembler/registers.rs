//! Registers with the cells that hold them, and what each instruction makes of its registers.
use vstd::prelude::*;

use crate::assembler::config::{AssemblerConfig, RmsNormEntry};
use crate::assembler::error::AssemblerError;
use crate::assembler::semantics::{
    broadcasts, elementwise, elementwise_first_misfit, elementwise_fits, elementwise_misfit_text,
    unsupported, unsupported_name, AssemblerInstruction, Product, RegisterRef, Registers,
};
use crate::chips::bridge::{all_in, all_linked, hold_raw};
use crate::chips::dot_general::DotProductConfig;
use crate::chips::layer_norm::all_i64;
use crate::chips::lookup::{value_at, LookupError};
use crate::chips::patch_embed::copied;
use crate::chips::reduce::{cell_raws, raws};
use crate::chips::rms_norm::RmsNormError;
use crate::field::modulus;
use crate::field_convert::i64_to_fr;
use crate::fixed_point::{lemma_i18_range, I18};
use crate::isa::{EltwiseOp, Instruction};
use crate::layout::{cell_at, cells_of, column_of, AssignedCell, Cell, Layouter, Mark};
use crate::plonk::{Assignment, Column, Setup};

verus! {

/// The values of a register with the cells that hold them, unshifted.
#[derive(Debug)]
pub struct RegisterCells {
    pub values: Vec<I18>,
    pub cells: Vec<AssignedCell>,
}

/// The registers of a program: inputs, weights, and the outputs of instructions.
#[derive(Debug)]
pub struct AssignedRegisters {
    pub inputs: Vec<RegisterCells>,
    pub weights: Vec<RegisterCells>,
    pub virtuals: Vec<RegisterCells>,
}

impl RegisterCells {
    /// The cells hold the values.
    pub open spec fn held(self, l: Layouter) -> bool {
        hold_raw(l, self.cells@, self.values@)
    }
}

/// The values of registers.
pub open spec fn all_values(regs: Seq<RegisterCells>) -> Seq<Seq<int>> {
    Seq::new(regs.len(), |i: int| raws(regs[i].values@))
}

/// The signed integers in the cells of registers.
pub open spec fn all_cell_values(env: Assignment, regs: Seq<RegisterCells>) -> Seq<Seq<int>> {
    Seq::new(regs.len(), |i: int| cell_raws(env, regs[i].cells@))
}

pub open spec fn all_held(l: Layouter, regs: Seq<RegisterCells>) -> bool {
    forall|i: int| 0 <= i < regs.len() ==> (#[trigger] regs[i]).held(l)
}

pub open spec fn all_registers_linked(setup: Setup, regs: Seq<RegisterCells>) -> bool {
    forall|i: int| 0 <= i < regs.len() ==> all_linked(setup, (#[trigger] regs[i]).cells@)
}

/// Every cell of the registers is a 64-bit integer.
pub open spec fn all_fit(env: Assignment, regs: Seq<RegisterCells>) -> bool {
    forall|i: int| 0 <= i < regs.len() ==> all_i64(cell_raws(env, (#[trigger] regs[i]).cells@))
}

/// The cells of registers.
#[verifier::ext_equal]
pub struct Places {
    pub inputs: Seq<Seq<Cell>>,
    pub weights: Seq<Seq<Cell>>,
    pub virtuals: Seq<Seq<Cell>>,
}

impl Places {
    /// The cells of an existing register.
    pub open spec fn get(self, r: RegisterRef) -> Seq<Cell> {
        match r {
            RegisterRef::Input(i) => self.inputs[i as int],
            RegisterRef::Weight(i) => self.weights[i as int],
            RegisterRef::Virtual(i) => self.virtuals[i as int],
        }
    }
}

/// The cells of each register.
pub open spec fn places_of(regs: Seq<RegisterCells>) -> Seq<Seq<Cell>> {
    Seq::new(regs.len(), |i: int| cells_of(regs[i].cells@))
}

impl AssignedRegisters {
    pub open spec fn places(self) -> Places {
        Places {
            inputs: places_of(self.inputs@),
            weights: places_of(self.weights@),
            virtuals: places_of(self.virtuals@),
        }
    }

    pub open spec fn values(self) -> Registers {
        Registers {
            inputs: all_values(self.inputs@),
            weights: all_values(self.weights@),
            virtuals: all_values(self.virtuals@),
        }
    }

    pub open spec fn cell_values(self, env: Assignment) -> Registers {
        Registers {
            inputs: all_cell_values(env, self.inputs@),
            weights: all_cell_values(env, self.weights@),
            virtuals: all_cell_values(env, self.virtuals@),
        }
    }

    pub open spec fn held(self, l: Layouter) -> bool {
        all_held(l, self.inputs@) && all_held(l, self.weights@) && all_held(l, self.virtuals@)
    }

    pub open spec fn linked(self, setup: Setup) -> bool {
        &&& all_registers_linked(setup, self.inputs@)
        &&& all_registers_linked(setup, self.weights@)
        &&& all_registers_linked(setup, self.virtuals@)
    }

    /// An existing register.
    pub open spec fn at(self, r: RegisterRef) -> RegisterCells {
        match r {
            RegisterRef::Input(i) => self.inputs@[i as int],
            RegisterRef::Weight(i) => self.weights@[i as int],
            RegisterRef::Virtual(i) => self.virtuals@[i as int],
        }
    }

    /// The register that a reference names.
    pub fn resolve(&self, r: RegisterRef) -> (res: Result<&RegisterCells, AssemblerError>)
        ensures
            match res {
                Ok(cells) => {
                    &&& self.values().has(r)
                    &&& *cells == self.at(r)
                    &&& cells_of(cells.cells@) == self.places().get(r)
                    &&& self.values().get(r) == raws(cells.values@)
                    &&& forall|env: Assignment| #[trigger]
                        self.cell_values(env).get(r) == cell_raws(env, cells.cells@)
                    &&& forall|l: Layouter| #[trigger] self.held(l) ==> cells.held(l)
                    &&& forall|setup: Setup| #[trigger]
                        self.linked(setup) ==> all_linked(setup, cells.cells@)
                },
                Err(e) => !self.values().has(r) && out_of_range(r, e),
            },
    {
        match r {
            RegisterRef::Input(index) => {
                if index < self.inputs.len() {
                    Ok(&self.inputs[index])
                } else {
                    Err(AssemblerError::RegisterIndexOutOfRange { kind: "input", index })
                }
            },
            RegisterRef::Weight(index) => {
                if index < self.weights.len() {
                    Ok(&self.weights[index])
                } else {
                    Err(AssemblerError::RegisterIndexOutOfRange { kind: "weight", index })
                }
            },
            RegisterRef::Virtual(index) => {
                if index < self.virtuals.len() {
                    Ok(&self.virtuals[index])
                } else {
                    Err(AssemblerError::RegisterIndexOutOfRange { kind: "virtual", index })
                }
            },
        }
    }
}

/// The error for a register that does not exist.
pub open spec fn out_of_range(r: RegisterRef, e: AssemblerError) -> bool {
    match r {
        RegisterRef::Input(i) => e matches AssemblerError::RegisterIndexOutOfRange { kind, index }
            && kind@ == "input"@ && index == i,
        RegisterRef::Weight(i) => e matches AssemblerError::RegisterIndexOutOfRange { kind, index }
            && kind@ == "weight"@ && index == i,
        RegisterRef::Virtual(i) => e matches AssemblerError::RegisterIndexOutOfRange { kind, index }
            && kind@ == "virtual"@ && index == i,
    }
}

/// Both inputs of an instruction exist.
pub open spec fn resolved(regs: Registers, inputs: Seq<RegisterRef>) -> bool {
    regs.has(inputs[0]) && regs.has(inputs[1])
}

/// The error for the first input that does not exist.
pub open spec fn unresolved(regs: Registers, inputs: Seq<RegisterRef>, e: AssemblerError) -> bool {
    if !regs.has(inputs[0]) {
        out_of_range(inputs[0], e)
    } else {
        out_of_range(inputs[1], e)
    }
}

/// A dot product of length `k` is configured.
pub open spec fn has_dot(config: AssemblerConfig, k: usize) -> bool {
    exists|i: int| 0 <= i < config.dot@.len() && (#[trigger] config.dot@[i]).k == k
}

pub open spec fn the_dot(config: AssemblerConfig, k: usize) -> DotProductConfig {
    config.dot@[choose|i: int| 0 <= i < config.dot@.len() && (#[trigger] config.dot@[i]).k == k]
}

/// The configured normalization for a dimension and an epsilon.
pub open spec fn is_rms_norm(
    config: AssemblerConfig,
    dim: usize,
    epsilon_milli: u64,
    i: int,
) -> bool {
    &&& 0 <= i < config.rms_norm@.len()
    &&& config.rms_norm@[i].dim == dim && config.rms_norm@[i].epsilon_milli == epsilon_milli
}

pub open spec fn has_rms_norm(config: AssemblerConfig, dim: usize, epsilon_milli: u64) -> bool {
    exists|i: int| #[trigger] is_rms_norm(config, dim, epsilon_milli, i)
}

pub open spec fn the_rms_norm(config: AssemblerConfig, dim: usize, epsilon_milli: u64) -> RmsNormEntry {
    config.rms_norm@[choose|i: int| #[trigger] is_rms_norm(config, dim, epsilon_milli, i)]
}

/// The outcome of a matrix product.
pub open spec fn dot_general_step(
    config: AssemblerConfig,
    regs: Registers,
    inputs: Seq<RegisterRef>,
    p: Product,
    batched: bool,
    k: usize,
    res: Result<Seq<int>, AssemblerError>,
) -> bool {
    if batched {
        res matches Err(AssemblerError::DotGeneralBatchDimsUnsupported)
    } else if inputs.len() != 2 {
        res matches Err(AssemblerError::DotGeneralInputCount { expected, got }) && expected == 2
            && got == inputs.len()
    } else if !resolved(regs, inputs) {
        res matches Err(e) && unresolved(regs, inputs, e)
    } else {
        let (a, b) = (regs.get(inputs[0]), regs.get(inputs[1]));
        if a.len() != p.m * p.k || b.len() != p.k * p.n {
            res matches Err(
                AssemblerError::DotGeneralShapeMismatch { expected_a, got_a, expected_b, got_b },
            ) && expected_a == p.m * p.k && got_a == a.len() && expected_b == p.k * p.n && got_b
                == b.len()
        } else if !has_dot(config, k) {
            res matches Err(AssemblerError::UnconfiguredDotK { k: k2 }) && k2 == k
        } else if p.fits(a, b) {
            res == Ok::<Seq<int>, AssemblerError>(p.of(a, b))
        } else {
            res matches Err(AssemblerError::Overflow(msg)) && exists|t: int| #[trigger]
                p.first_misfit(a, b, t) && msg@ == p.misfit_text(a, b, t)
        }
    }
}

/// The outcome of an elementwise operation.
pub open spec fn eltwise_step(
    regs: Registers,
    inputs: Seq<RegisterRef>,
    op: EltwiseOp,
    res: Result<Seq<int>, AssemblerError>,
) -> bool {
    if inputs.len() != 2 {
        res matches Err(AssemblerError::EltwiseInputCount { expected, got }) && expected == 2
            && got == inputs.len()
    } else if !resolved(regs, inputs) {
        res matches Err(e) && unresolved(regs, inputs, e)
    } else {
        let (a, b) = (regs.get(inputs[0]), regs.get(inputs[1]));
        if !broadcasts(a.len() as int, b.len() as int) {
            res matches Err(AssemblerError::EltwiseLengthMismatch { a_len, b_len }) && a_len
                == a.len() && b_len == b.len()
        } else if elementwise_fits(op, a, b) {
            res == Ok::<Seq<int>, AssemblerError>(elementwise(op, a, b))
        } else {
            res matches Err(AssemblerError::Overflow(msg)) && exists|t: int| #[trigger]
                elementwise_first_misfit(op, a, b, t) && msg@ == elementwise_misfit_text(
                    op,
                    a,
                    b,
                    t,
                )
        }
    }
}

/// The outcome of a normalization.
pub open spec fn rms_norm_step(
    config: AssemblerConfig,
    regs: Registers,
    inputs: Seq<RegisterRef>,
    dim: usize,
    epsilon_milli: u64,
    res: Result<Seq<int>, AssemblerError>,
) -> bool {
    if inputs.len() != 2 {
        res matches Err(AssemblerError::RmsNormInputCount { expected, got }) && expected == 2
            && got == inputs.len()
    } else if !resolved(regs, inputs) {
        res matches Err(e) && unresolved(regs, inputs, e)
    } else {
        let (x, w) = (regs.get(inputs[0]), regs.get(inputs[1]));
        if x.len() != dim || w.len() != dim {
            res matches Err(
                AssemblerError::RmsNormShapeMismatch { dim: d, got_x, got_weight },
            ) && d == dim && got_x == x.len() && got_weight == w.len()
        } else if !has_rms_norm(config, dim, epsilon_milli) {
            res matches Err(AssemblerError::UnconfiguredRmsNorm { dim: d, epsilon_milli: e })
                && d == dim && e == epsilon_milli
        } else {
            let chip = the_rms_norm(config, dim, epsilon_milli).chip;
            let at = chip.config.mean_square(x) + chip.config.epsilon@;
            match value_at(chip.domain(), at) {
                Some(v) => res == Ok::<Seq<int>, AssemblerError>(
                    chip.config.normalized(x, w, v@),
                ),
                None => res matches Err(
                    AssemblerError::RmsNorm(RmsNormError::Rsqrt(LookupError::InputNotInDomain(p))),
                ) && p@ == at,
            }
        }
    }
}

/// The outcome of an instruction: the values of its output, or its error.
pub open spec fn step(
    config: AssemblerConfig,
    regs: Registers,
    i: AssemblerInstruction,
    res: Result<Seq<int>, AssemblerError>,
) -> bool {
    if unsupported(i.instruction) {
        res matches Err(AssemblerError::UnsupportedInstruction(name)) && name@
            == unsupported_name(i.instruction)
    } else {
        match i.instruction {
            Instruction::DotGeneral { m, n, k, batch_dims, trans_a, trans_b } => dot_general_step(
                config,
                regs,
                i.inputs@,
                Product { m: m as int, n: n as int, k: k as int, trans_a, trans_b },
                batch_dims@.len() > 0,
                k,
                res,
            ),
            Instruction::Eltwise { op } => eltwise_step(regs, i.inputs@, op, res),
            Instruction::RmsNorm { dim, epsilon_milli } => rms_norm_step(
                config,
                regs,
                i.inputs@,
                dim,
                epsilon_milli,
                res,
            ),
            _ => false,
        }
    }
}

/// The normalization can be run: where it is reached, none of its steps leaves the range of
/// 64-bit integers.
pub open spec fn rms_norm_runnable(
    config: AssemblerConfig,
    regs: Registers,
    inputs: Seq<RegisterRef>,
    dim: usize,
    epsilon_milli: u64,
) -> bool {
    inputs.len() == 2 && resolved(regs, inputs) && regs.get(inputs[0]).len() == dim && regs.get(
        inputs[1],
    ).len() == dim && has_rms_norm(config, dim, epsilon_milli) ==> {
        let chip = the_rms_norm(config, dim, epsilon_milli).chip;
        chip.config.fits(chip.domain(), regs.get(inputs[0]), regs.get(inputs[1]))
    }
}

/// The instruction can be run: the lengths of its operands can be counted, and no step of a
/// normalization leaves the range of 64-bit integers.
pub open spec fn runnable(config: AssemblerConfig, regs: Registers, i: AssemblerInstruction) -> bool {
    match i.instruction {
        Instruction::DotGeneral { m, n, k, batch_dims, trans_a, trans_b } => {
            batch_dims@.len() == 0 && i.inputs@.len() == 2 && resolved(regs, i.inputs@) ==> m * k
                <= usize::MAX && k * n <= usize::MAX
        },
        Instruction::RmsNorm { dim, epsilon_milli } => rms_norm_runnable(
            config,
            regs,
            i.inputs@,
            dim,
            epsilon_milli,
        ),
        _ => true,
    }
}

/// What a satisfied layout proves of an instruction's output: a matrix product, of 64-bit
/// integers, and an elementwise operation are exactly what they should be; a normalization is
/// the one for the reciprocal square root that its table gives.
pub open spec fn proves(
    config: AssemblerConfig,
    regs: Registers,
    i: AssemblerInstruction,
    out: Seq<int>,
) -> bool {
    match i.instruction {
        Instruction::DotGeneral { m, n, k, batch_dims, trans_a, trans_b } => {
            let (a, b) = (regs.get(i.inputs@[0]), regs.get(i.inputs@[1]));
            &&& m > 0 && n > 0 ==> all_i64(a) && all_i64(b)
            &&& out == (Product { m: m as int, n: n as int, k: k as int, trans_a, trans_b }).of(a, b)
        },
        Instruction::Eltwise { op } => out == elementwise(
            op,
            regs.get(i.inputs@[0]),
            regs.get(i.inputs@[1]),
        ),
        Instruction::RmsNorm { dim, epsilon_milli } => {
            let chip = the_rms_norm(config, dim, epsilon_milli).chip;
            chip.config.proves(
                chip.domain(),
                regs.get(i.inputs@[0]),
                regs.get(i.inputs@[1]),
                out,
            )
        },
        _ => false,
    }
}

/// The values of an outcome.
pub open spec fn outcome(res: Result<RegisterCells, AssemblerError>) -> Result<
    Seq<int>,
    AssemblerError,
> {
    match res {
        Ok(r) => Ok(raws(r.values@)),
        Err(e) => Err(e),
    }
}

/// The layout after a tensor of length `n`.
pub closed spec fn boundary_trace(t: Seq<Mark>, column: Column, n: int) -> Seq<Mark>
    decreases n,
{
    if n <= 0 {
        t.push(Mark::Region)
    } else {
        boundary_trace(t, column, n - 1).push(
            Mark::Advice { cell: cell_at(t.len(), column, n - 1) },
        )
    }
}

/// Witnesses a tensor in a column, in a region of its own.
pub(crate) fn assign_boundary(column: Column, layouter: &mut Layouter, tensor: &Vec<I18>) -> (r:
    RegisterCells)
    ensures
        final(layouter).grows(*old(layouter)),
        final(layouter).trace() == boundary_trace(
            old(layouter).trace(),
            column,
            tensor@.len() as int,
        ),
        cells_of(r.cells@) == column_of(old(layouter).trace().len(), column, tensor@.len() as int),
        r.values@ == tensor@,
        r.held(*final(layouter)),
        forall|i: int|
            0 <= i < tensor@.len() ==> (#[trigger] r.cells@[i]).is(
                old(layouter).next(),
                column,
                i,
                tensor@[i]@ % modulus(),
            ),
        forall|setup: Setup|
            setup.cs.linked(column) ==> #[trigger] all_linked(setup, r.cells@),
        forall|setup: Setup|
            old(layouter).honest(setup) ==> #[trigger] final(layouter).honest(setup),
{
    let ghost base = *layouter;
    let region: usize = layouter.region();
    let mut cells: Vec<AssignedCell> = Vec::new();
    let mut i: usize = 0;
    while i < tensor.len()
        invariant
            i <= tensor@.len(),
            region == base.next(),
            region < layouter.next(),
            layouter.grows(base),
            layouter.trace() == boundary_trace(base.trace(), column, i as int),
            cells@.len() == i,
            forall|j: int|
                0 <= j < i ==> (#[trigger] cells@[j]).is(
                    region as int,
                    column,
                    j,
                    tensor@[j]@ % modulus(),
                ),
            forall|j: int| 0 <= j < i ==> layouter.has(#[trigger] cells@[j]),
            base.fresh() ==> layouter.fresh(),
            base.fresh() && base.consistent() ==> layouter.consistent(),
            base.fresh() ==> forall|c: Column, o: int| #[trigger]
                layouter.assigned(region as int, c, o) ==> o < i,
            forall|setup: Setup, env: Assignment| #[trigger]
                layouter.sat(setup, env) <==> base.sat(setup, env),
        decreases tensor@.len() - i,
    {
        let ghost before = *layouter;
        let ghost prev = cells@;
        proof {
            lemma_i18_range(tensor@[i as int]);
        }
        let c = layouter.assign_advice(region, column, i, i64_to_fr(tensor[i].raw()));
        cells.push(c);
        proof {
            assert forall|j: int| 0 <= j < i + 1 implies layouter.has(#[trigger] cells@[j]) by {
                if j < i {
                    assert(before.has(prev[j]));
                }
            }
        }
        i += 1;
    }
    assert(cells_of(cells@) =~= column_of(base.trace().len(), column, tensor@.len() as int));
    let r = RegisterCells { values: copied(tensor), cells };
    proof {
        assert forall|setup: Setup| base.honest(setup) implies #[trigger] layouter.honest(setup) by {
            assert forall|env: Assignment| #[trigger] layouter.agrees(env) implies layouter.sat(
                setup,
                env,
            ) by {
                assert(base.agrees(env));
            }
        }
    }
    r
}

/// An instruction is laid out: its output's cells hold the output unshifted in the bridge's
/// column; whatever satisfies the layout has in these cells an output that the instruction
/// proves; and the recorded values satisfy the layout.
pub open spec fn laid(
    config: AssemblerConfig,
    regs: AssignedRegisters,
    i: AssemblerInstruction,
    before: Layouter,
    after: Layouter,
    out: RegisterCells,
) -> bool {
    &&& out.held(after)
    &&& all_in(out.cells@, config.bridge.unshifted)
    &&& forall|setup: Setup, env: Assignment|
        config.ok(setup) && #[trigger] after.sat(setup, env) ==> {
            &&& proves(config, regs.cell_values(env), i, cell_raws(env, out.cells@))
            &&& all_i64(cell_raws(env, out.cells@))
        }
    &&& forall|setup: Setup|
        config.ok(setup) && config.distinct() && regs.linked(setup) && before.honest(setup)
            ==> #[trigger] after.honest(setup)
}

} // verus!
