//! The assembler.
use vstd::prelude::*;

use crate::assembler::config::{
    configurable, configure_assembler, configured, dot_tables_from, AssemblerConfig,
    RmsNormParams,
};
use crate::assembler::dot::{lemma_held, product_layout, Shape};
use crate::assembler::eltwise::elementwise_layout;
use crate::assembler::error::AssemblerError;
use crate::assembler::registers::{
    all_fit, all_held, all_values, assign_boundary, boundary_trace, laid, outcome, places_of,
    proves, runnable, step, the_dot, the_rms_norm, AssignedRegisters, Places, RegisterCells,
};
use crate::assembler::rms_norm::norm_layout;
use crate::assembler::semantics::{
    lengths, longer, steps_of, unsupported_text, AssemblerInstruction, AssemblerProgram, Product,
    Registers, Step,
};
use crate::chips::bridge::{all_in, all_linked};
use crate::chips::dot_general::DotProductChip;
use crate::chips::eltwise::load_mul_operand_range_table;
use crate::chips::layer_norm::all_i64;
use crate::chips::lookup_range_check::{byte_table, LookupRangeCheckChip};
use crate::chips::patch_embed::copied;
use crate::chips::reduce::{cell_raws, raws};
use crate::fixed_point::I18;
use crate::isa::{EltwiseOp, Instruction, Operation};
use crate::layout::{cells_of, column_of, Cell, Laid, Layouter, Mark};
use crate::plonk::{Assignment, Column, ConstraintSystem, Setup};

verus! {

pub struct AssemblerChip {
    pub config: AssemblerConfig,
}

/// Two sets of lookup tables agree from `low` on, below `high`.
pub open spec fn same_tables(
    s: spec_fn(int) -> Seq<int>,
    t: spec_fn(int) -> Seq<int>,
    low: int,
    high: int,
) -> bool {
    forall|i: int| low <= i < high ==> (#[trigger] s(i)) == t(i)
}

/// The layout after an instruction, with the cells of its output.
pub closed spec fn instruction_layout(
    config: AssemblerConfig,
    t: Seq<Mark>,
    places: Places,
    step: Step,
) -> Laid {
    let a = places.get(step.inputs[0]);
    let b = places.get(step.inputs[1]);
    match step.operation {
        Operation::DotGeneral { m, n, k, batch_dims, trans_a, trans_b } => product_layout(
            the_dot(config, k),
            config.bridge,
            t,
            Product { m: m as int, n: n as int, k: k as int, trans_a, trans_b },
            a,
            b,
            m * n,
        ),
        Operation::Eltwise { op } => elementwise_layout(
            config,
            t,
            op,
            a,
            b,
            longer(a.len() as int, b.len() as int),
        ),
        Operation::RmsNorm { dim, epsilon_milli } => norm_layout(
            config,
            the_rms_norm(config, dim, epsilon_milli).chip,
            t,
            a,
            b,
        ),
        _ => Laid { trace: t, cells: Seq::empty() },
    }
}

/// The layout after the first `n` tensors of these lengths.
pub closed spec fn tensors_trace(
    t: Seq<Mark>,
    column: Column,
    lengths: Seq<usize>,
    n: int,
) -> Seq<Mark>
    decreases n,
{
    if n <= 0 {
        t
    } else {
        boundary_trace(
            tensors_trace(t, column, lengths, n - 1),
            column,
            lengths[n - 1] as int,
        )
    }
}

/// The cells of the first `n` tensors of these lengths.
pub closed spec fn tensors_places(
    t: Seq<Mark>,
    column: Column,
    lengths: Seq<usize>,
    n: int,
) -> Seq<Seq<Cell>>
    decreases n,
{
    if n <= 0 {
        Seq::empty()
    } else {
        tensors_places(t, column, lengths, n - 1).push(
            column_of(
                tensors_trace(t, column, lengths, n - 1).len(),
                column,
                lengths[n - 1] as int,
            ),
        )
    }
}

/// A layout with the cells of a program's registers.
#[verifier::ext_equal]
pub struct ProgramLayout {
    pub trace: Seq<Mark>,
    pub places: Places,
}

/// The layout after tensors of these lengths and the first `n` of these steps.
pub closed spec fn program_layout(
    config: AssemblerConfig,
    t: Seq<Mark>,
    inputs: Seq<usize>,
    weights: Seq<usize>,
    steps: Seq<Step>,
    n: int,
) -> ProgramLayout
    decreases n,
{
    if n <= 0 {
        let column = config.boundary;
        let first = tensors_trace(t, column, inputs, inputs.len() as int);
        ProgramLayout {
            trace: tensors_trace(first, column, weights, weights.len() as int),
            places: Places {
                inputs: tensors_places(t, column, inputs, inputs.len() as int),
                weights: tensors_places(first, column, weights, weights.len() as int),
                virtuals: Seq::empty(),
            },
        }
    } else {
        let before = program_layout(config, t, inputs, weights, steps, n - 1);
        let output = instruction_layout(config, before.trace, before.places, steps[n - 1]);
        ProgramLayout {
            trace: output.trace,
            places: Places {
                virtuals: before.places.virtuals.push(output.cells),
                ..before.places
            },
        }
    }
}

impl AssemblerConfig {
    /// The layout after the tables of the first `n` dot products.
    pub closed spec fn dot_tables_trace(self, t: Seq<Mark>, n: int) -> Seq<Mark>
        decreases n,
    {
        if n <= 0 {
            t
        } else {
            self.dot@[n - 1].tables_trace(self.dot_tables_trace(t, n - 1))
        }
    }

    /// The byte tables of the operand checks are loaded where they were not, and no other table
    /// has changed.
    pub open spec fn range_tables_after(self, before: Layouter, after: Layouter) -> bool {
        forall|t: int| #[trigger]
            (after.tables())(t) == if self.first_table <= t < self.first_rms_norm_table() && (
            before.tables())(t).len() == 0 {
                byte_table()
            } else {
                (before.tables())(t)
            }
    }

    /// The layout after the tables of operand checks.
    pub closed spec fn range_tables_trace(self, t: Seq<Mark>) -> Seq<Mark> {
        self.mul.tables_trace(self.dot_tables_trace(t, self.dot@.len() as int))
    }

    /// The layout after the tables of the first `n` normalizations.
    pub closed spec fn rms_norm_tables_trace(self, t: Seq<Mark>, n: int) -> Seq<Mark>
        decreases n,
    {
        if n <= 0 {
            t
        } else {
            self.rms_norm@[n - 1].chip.tables_trace(self.rms_norm_tables_trace(t, n - 1))
        }
    }
}

impl AssemblerChip {
    /// Configures the assembler for instructions without a normalization.
    pub fn configure(meta: &mut ConstraintSystem, instructions: &Vec<AssemblerInstruction>) -> (config:
        AssemblerConfig)
        requires
            configurable(*old(meta), instructions@, Seq::empty()),
        ensures
            configured(
                *old(meta),
                *final(meta),
                instructions@,
                Seq::empty(),
                false,
                config,
            ),
    {
        let none: Vec<RmsNormParams> = Vec::new();
        assert(none@ =~= Seq::empty());
        configure_assembler(meta, instructions, &none, false)
    }

    /// Configures the assembler for instructions, each normalization with its parameters, which
    /// are in the order of `rms_norm_keys`.
    pub fn configure_with_rms_norm_domains(
        meta: &mut ConstraintSystem,
        instructions: &Vec<AssemblerInstruction>,
        rms_norm_domains: &Vec<RmsNormParams>,
    ) -> (config: AssemblerConfig)
        requires
            configurable(*old(meta), instructions@, rms_norm_domains@),
        ensures
            configured(
                *old(meta),
                *final(meta),
                instructions@,
                rms_norm_domains@,
                false,
                config,
            ),
    {
        configure_assembler(meta, instructions, rms_norm_domains, false)
    }

    /// Configures the assembler as `configure_with_rms_norm_domains` does, with a column of
    /// public values.
    pub fn configure_with_rms_norm_domains_and_public_instances(
        meta: &mut ConstraintSystem,
        instructions: &Vec<AssemblerInstruction>,
        rms_norm_domains: &Vec<RmsNormParams>,
    ) -> (config: AssemblerConfig)
        requires
            configurable(*old(meta), instructions@, rms_norm_domains@),
        ensures
            configured(
                *old(meta),
                *final(meta),
                instructions@,
                rms_norm_domains@,
                true,
                config,
            ),
    {
        configure_assembler(meta, instructions, rms_norm_domains, true)
    }

    pub fn construct(config: AssemblerConfig) -> (chip: Self)
        ensures
            chip.config == config,
    {
        AssemblerChip { config }
    }

    /// Loads the byte tables of every dot product's and of the multiplication's operand checks.
    /// Called once in a synthesis.
    pub fn load_range_tables(&self, layouter: &mut Layouter)
        requires
            self.config.wf(),
            forall|t: int|
                self.config.first_table <= t < self.config.first_rms_norm_table() ==> (
                #[trigger] (old(layouter).tables())(t)).len() == 0,
        ensures
            final(layouter).only_loads(*old(layouter)),
            final(layouter).trace() == self.config.range_tables_trace(old(layouter).trace()),
            forall|t: int| #[trigger]
                (final(layouter).tables())(t) == if self.config.first_table <= t
                    < self.config.first_rms_norm_table() {
                    byte_table()
                } else {
                    (old(layouter).tables())(t)
                },
    {
        let ghost base = *layouter;
        let ghost first = self.config.first_table as int;
        let mut i: usize = 0;
        while i < self.config.dot.len()
            invariant
                i <= self.config.dot@.len(),
                self.config.wf(),
                first == self.config.first_table,
                forall|t: int|
                    first <= t < self.config.first_rms_norm_table() ==> (
                    #[trigger] (base.tables())(t)).len() == 0,
                layouter.only_loads(base),
                layouter.trace() == self.config.dot_tables_trace(base.trace(), i as int),
                forall|t: int| #[trigger]
                    (layouter.tables())(t) == if first <= t < first + 2 * i {
                        byte_table()
                    } else {
                        (base.tables())(t)
                    },
            decreases self.config.dot@.len() - i,
        {
            let config = self.config.dot[i];
            let ghost before = *layouter;
            assert(self.config.dot@[i as int].wf());
            DotProductChip::construct(config).load_range_table(layouter);
            i += 1;
        }
        load_mul_operand_range_table(&self.config.mul, layouter);
    }

    /// Loads those byte tables of the operand checks that are not loaded yet.
    fn ensure_range_tables(&self, layouter: &mut Layouter)
        requires
            self.config.wf(),
        ensures
            final(layouter).only_loads(*old(layouter)),
            self.config.range_tables_after(*old(layouter), *final(layouter)),
    {
        let ghost base = *layouter;
        let ghost first = self.config.first_table as int;
        let mut i: usize = 0;
        while i < self.config.dot.len()
            invariant
                i <= self.config.dot@.len(),
                self.config.wf(),
                first == self.config.first_table,
                layouter.only_loads(base),
                forall|t: int| #[trigger]
                    (layouter.tables())(t) == if first <= t < first + 2 * i && (base.tables())(
                        t,
                    ).len() == 0 {
                        byte_table()
                    } else {
                        (base.tables())(t)
                    },
            decreases self.config.dot@.len() - i,
        {
            let config = self.config.dot[i];
            assert(dot_tables_from(self.config.dot@[i as int], first + 2 * i));
            LookupRangeCheckChip::construct(config.range_a).ensure_table(layouter);
            LookupRangeCheckChip::construct(config.range_b).ensure_table(layouter);
            i += 1;
        }
        LookupRangeCheckChip::construct(self.config.mul.range_a).ensure_table(layouter);
        LookupRangeCheckChip::construct(self.config.mul.range_b).ensure_table(layouter);
    }

    /// Loads the tables of every normalization. Called once in a synthesis.
    pub fn load_rms_norm_tables(&self, layouter: &mut Layouter)
        requires
            self.config.wf(),
            forall|t: int|
                self.config.first_rms_norm_table() <= t < self.config.end_table() ==> (
                #[trigger] (old(layouter).tables())(t)).len() == 0,
        ensures
            final(layouter).only_loads(*old(layouter)),
            final(layouter).trace() == self.config.rms_norm_tables_trace(
                old(layouter).trace(),
                self.config.rms_norm@.len() as int,
            ),
            forall|t: int|
                !(self.config.first_rms_norm_table() <= t < self.config.end_table()) ==> (
                #[trigger] (final(layouter).tables())(t)) == (old(layouter).tables())(t),
            forall|setup: Setup, i: int|
                0 <= i < self.config.rms_norm@.len() && same_tables(
                    setup.tables,
                    final(layouter).tables(),
                    self.config.first_rms_norm_table(),
                    self.config.end_table(),
                ) ==> #[trigger] self.config.rms_norm_loaded(setup, i),
    {
        let ghost base = *layouter;
        let ghost first = self.config.first_rms_norm_table();
        let mut i: usize = 0;
        while i < self.config.rms_norm.len()
            invariant
                i <= self.config.rms_norm@.len(),
                self.config.wf(),
                first == self.config.first_rms_norm_table(),
                forall|t: int|
                    first <= t < self.config.end_table() ==> (#[trigger] (base.tables())(t)).len()
                        == 0,
                layouter.only_loads(base),
                layouter.trace() == self.config.rms_norm_tables_trace(base.trace(), i as int),
                forall|t: int|
                    !(first <= t < first + 4 * i) ==> (#[trigger] (layouter.tables())(t)) == (
                    base.tables())(t),
                forall|setup: Setup, j: int|
                    0 <= j < i && same_tables(
                        setup.tables,
                        layouter.tables(),
                        first,
                        first + 4 * i,
                    ) ==> #[trigger] self.config.rms_norm_loaded(setup, j),
            decreases self.config.rms_norm@.len() - i,
        {
            let ghost before = *layouter;
            let ghost chip = self.config.rms_norm@[i as int].chip;
            assert(self.config.rms_norm@[i as int].wf());
            assert(self.config.rms_norm@[i as int].tables_from(first + 4 * i));
            self.config.rms_norm[i].chip.load_table(layouter);
            proof {
                assert forall|setup: Setup, j: int|
                    0 <= j < i + 1 && same_tables(
                        setup.tables,
                        layouter.tables(),
                        first,
                        first + 4 * (i + 1),
                    ) implies #[trigger] self.config.rms_norm_loaded(setup, j) by {
                    if j < i {
                        assert(same_tables(setup.tables, before.tables(), first, first + 4 * i)) by {
                            assert forall|t: int| first <= t < first + 4 * i implies (
                            #[trigger] (setup.tables)(t)) == (before.tables())(t) by {
                                assert((layouter.tables())(t) == (before.tables())(t));
                            }
                        }
                    } else {
                        assert(chip.config.loaded(setup, chip.domain()));
                    }
                }
            }
            i += 1;
        }
    }

    /// Lays an instruction out.
    pub fn assign_instruction(
        &self,
        layouter: &mut Layouter,
        regs: &AssignedRegisters,
        i: &AssemblerInstruction,
    ) -> (res: Result<RegisterCells, AssemblerError>)
        requires
            self.config.wf(),
            regs.held(*old(layouter)),
            runnable(self.config, regs.values(), *i),
        ensures
            final(layouter).grows(*old(layouter)),
            step(self.config, regs.values(), *i, outcome(res)),
            res matches Ok(out) ==> (Laid {
                trace: final(layouter).trace(),
                cells: cells_of(out.cells@),
            }) == instruction_layout(self.config, old(layouter).trace(), regs.places(), i@),
            res matches Ok(out) ==> laid(
                self.config,
                *regs,
                *i,
                *old(layouter),
                *final(layouter),
                out,
            ),
    {
        match &i.instruction {
            Instruction::DotGeneral { m, n, k, batch_dims, trans_a, trans_b } => {
                let shape = Shape { m: *m, n: *n, k: *k, trans_a: *trans_a, trans_b: *trans_b };
                self.assign_dot_general(layouter, regs, &i.inputs, shape, batch_dims.len() > 0)
            },
            Instruction::Eltwise { op: EltwiseOp::Add } => self.assign_eltwise(
                layouter,
                regs,
                &i.inputs,
                EltwiseOp::Add,
            ),
            Instruction::Eltwise { op: EltwiseOp::Mul } => self.assign_eltwise(
                layouter,
                regs,
                &i.inputs,
                EltwiseOp::Mul,
            ),
            Instruction::RmsNorm { dim, epsilon_milli } => self.assign_rms_norm(
                layouter,
                regs,
                &i.inputs,
                *dim,
                *epsilon_milli,
            ),
            other => Err(AssemblerError::UnsupportedInstruction(unsupported_text(other))),
        }
    }

    /// Witnesses every tensor in the boundary column, each in a region of its own.
    pub(crate) fn assign_boundaries(&self, layouter: &mut Layouter, tensors: &Vec<Vec<I18>>) -> (regs: Vec<
        RegisterCells,
    >)
        ensures
            final(layouter).grows(*old(layouter)),
            final(layouter).trace() == tensors_trace(
                old(layouter).trace(),
                self.config.boundary,
                lengths(tensors@),
                tensors@.len() as int,
            ),
            places_of(regs@) == tensors_places(
                old(layouter).trace(),
                self.config.boundary,
                lengths(tensors@),
                tensors@.len() as int,
            ),
            all_values(regs@) == tensor_values(tensors@),
            all_held(*final(layouter), regs@),
            forall|i: int|
                0 <= i < regs@.len() ==> all_in(
                    (#[trigger] regs@[i]).cells@,
                    self.config.boundary,
                ),
            forall|setup: Setup|
                old(layouter).honest(setup) ==> #[trigger] final(layouter).honest(setup),
    {
        let ghost base = *layouter;
        let mut regs: Vec<RegisterCells> = Vec::new();
        assert(places_of(regs@) =~= Seq::<Seq<Cell>>::empty());
        let mut i: usize = 0;
        while i < tensors.len()
            invariant
                i <= tensors@.len(),
                layouter.grows(base),
                layouter.trace() == tensors_trace(
                    base.trace(),
                    self.config.boundary,
                    lengths(tensors@),
                    i as int,
                ),
                places_of(regs@) == tensors_places(
                    base.trace(),
                    self.config.boundary,
                    lengths(tensors@),
                    i as int,
                ),
                regs@.len() == i,
                forall|j: int| 0 <= j < i ==> (#[trigger] regs@[j]).values@ == tensors@[j]@,
                all_held(*layouter, regs@),
                forall|j: int|
                    0 <= j < i ==> all_in((#[trigger] regs@[j]).cells@, self.config.boundary),
                forall|setup: Setup| base.honest(setup) ==> #[trigger] layouter.honest(setup),
            decreases tensors@.len() - i,
        {
            let ghost before = *layouter;
            let ghost prev = regs@;
            let r = assign_boundary(self.config.boundary, layouter, &tensors[i]);
            proof {
                assert(all_in(r.cells@, self.config.boundary)) by {
                    assert forall|j: int| 0 <= j < r.cells@.len() implies (
                    #[trigger] r.cells@[j]).cell.column == self.config.boundary by {}
                }
                lemma_all_held(*layouter, before, prev);
                assert forall|setup: Setup| base.honest(setup) implies #[trigger] layouter.honest(
                    setup,
                ) by {
                    assert(before.honest(setup));
                }
            }
            regs.push(r);
            assert(lengths(tensors@)[i as int] == tensors@[i as int].len());
            assert(places_of(regs@) =~= places_of(prev).push(cells_of(r.cells@)));
            i += 1;
        }
        assert(all_values(regs@) =~= tensor_values(tensors@)) by {
            assert forall|j: int| 0 <= j < regs@.len() implies #[trigger] all_values(regs@)[j]
                == tensor_values(tensors@)[j] by {
                assert(regs@[j].values@ == tensors@[j]@);
            }
        }
        regs
    }

    /// Lays a program out: the tensors of inputs and weights first, then every instruction.
    /// Returns every register with its cells. Stops at the first instruction that fails.
    pub fn assign_with_cells(&self, layouter: &mut Layouter, program: &AssemblerProgram) -> (res:
        Result<AssignedRegisters, AssemblerError>)
        requires
            self.config.wf(),
            program_runnable(self.config, *program),
        ensures
            final(layouter).grows(*old(layouter)),
            match res {
                Ok(regs) => {
                    &&& regs.values() == program_registers(*program, regs.values().virtuals)
                    &&& runs(self.config, *program, Ok(regs.values().virtuals))
                    &&& (ProgramLayout { trace: final(layouter).trace(), places: regs.places() })
                        == program_layout(
                        self.config,
                        old(layouter).trace(),
                        lengths(program.input_values@),
                        lengths(program.weight_values@),
                        steps_of(program.instructions@),
                        program.instructions@.len() as int,
                    )
                    &&& program_laid(
                        self.config,
                        *program,
                        *old(layouter),
                        *final(layouter),
                        regs,
                    )
                },
                Err(e) => runs(self.config, *program, Err(e)),
            },
    {
        let ghost base = *layouter;
        let inputs = self.assign_boundaries(layouter, &program.input_values);
        let ghost l1 = *layouter;
        let weights = self.assign_boundaries(layouter, &program.weight_values);
        let mut regs = AssignedRegisters { inputs, weights, virtuals: Vec::new() };
        proof {
            lemma_all_held(*layouter, l1, inputs@);
            assert(regs.values().virtuals =~= Seq::empty());
            assert(regs.places().virtuals =~= Seq::empty());
            assert forall|setup: Setup|
                self.config.ok(setup) && self.config.distinct() && base.honest(
                    setup,
                ) implies #[trigger] layouter.honest(setup) by {
                assert(l1.honest(setup));
            }
        }
        let mut t: usize = 0;
        while t < program.instructions.len()
            invariant
                t <= program.instructions@.len(),
                self.config.wf(),
                program_runnable(self.config, *program),
                base == *old(layouter),
                layouter.grows(base),
                (ProgramLayout { trace: layouter.trace(), places: regs.places() })
                    == program_layout(
                    self.config,
                    base.trace(),
                    lengths(program.input_values@),
                    lengths(program.weight_values@),
                    steps_of(program.instructions@),
                    t as int,
                ),
                regs.held(*layouter),
                regs.values() == program_registers(*program, regs.values().virtuals),
                regs.virtuals@.len() == t,
                all_steps(self.config, *program, regs.values().virtuals),
                placed(self.config, regs),
                forall|setup: Setup, env: Assignment|
                    self.config.ok(setup) && #[trigger] layouter.sat(setup, env) ==> {
                        &&& proves_first(
                            self.config,
                            *program,
                            regs.cell_values(env),
                            t as int,
                        )
                        &&& all_fit(env, regs.virtuals@)
                    },
                forall|setup: Setup|
                    self.config.ok(setup) && self.config.distinct() && base.honest(setup)
                        ==> #[trigger] layouter.honest(setup),
            decreases program.instructions@.len() - t,
        {
            let ghost before = *layouter;
            let ghost prev = regs;
            let ghost vs = regs.values().virtuals;
            assert(runnable(
                self.config,
                program_registers(*program, vs),
                program.instructions@[vs.len() as int],
            ));
            match self.assign_instruction(layouter, &regs, &program.instructions[t]) {
                Ok(out) => {
                    let ghost l = *layouter;
                    regs.virtuals.push(out);
                    assert(places_of(regs.virtuals@) =~= places_of(prev.virtuals@).push(
                        cells_of(out.cells@),
                    ));
                    proof {
                        lemma_step_taken(self.config, *program, prev, regs, before, l, base, out);
                    }
                },
                Err(e) => {
                    assert(all_steps(self.config, *program, vs));
                    return Err(e);
                },
            }
            t += 1;
        }
        Ok(regs)
    }

    /// Lays a program out and returns the output of every instruction. The byte tables of the
    /// operand checks are loaded first where they are not yet.
    pub fn assign(&self, layouter: &mut Layouter, program: &AssemblerProgram) -> (res: Result<
        Vec<Vec<I18>>,
        AssemblerError,
    >)
        requires
            self.config.wf(),
            program_runnable(self.config, *program),
        ensures
            final(layouter).continues(*old(layouter)),
            self.config.range_tables_after(*old(layouter), *final(layouter)),
            match res {
                Ok(outs) => {
                    &&& runs(self.config, *program, Ok(tensor_values(outs@)))
                    &&& exists|regs: AssignedRegisters| #[trigger]
                        program_laid(
                            self.config,
                            *program,
                            *old(layouter),
                            *final(layouter),
                            regs,
                        ) && regs.values() == program_registers(*program, tensor_values(outs@))
                },
                Err(e) => runs(self.config, *program, Err(e)),
            },
    {
        let ghost base = *layouter;
        self.ensure_range_tables(layouter);
        let ghost loaded = *layouter;
        let regs = match self.assign_with_cells(layouter, program) {
            Ok(regs) => regs,
            Err(e) => {
                return Err(e);
            },
        };
        proof {
            let l = *layouter;
            assert forall|setup: Setup| base.honest(setup) implies #[trigger] loaded.honest(
                setup,
            ) by {
                assert forall|env: Assignment| #[trigger] loaded.agrees(env) implies loaded.sat(
                    setup,
                    env,
                ) by {
                    assert(base.agrees(env));
                    assert(base.sat(setup, env));
                }
            }
            assert forall|setup: Setup|
                self.config.ok(setup) && self.config.distinct() && base.honest(
                    setup,
                ) implies #[trigger] l.honest(setup) by {
                assert(loaded.honest(setup));
            }
            assert(program_laid(self.config, *program, base, l, regs));
        }
        let mut outs: Vec<Vec<I18>> = Vec::new();
        let mut i: usize = 0;
        while i < regs.virtuals.len()
            invariant
                i <= regs.virtuals@.len(),
                outs@.len() == i,
                forall|j: int|
                    0 <= j < i ==> (#[trigger] outs@[j])@ == regs.virtuals@[j].values@,
            decreases regs.virtuals@.len() - i,
        {
            outs.push(copied(&regs.virtuals[i].values));
            i += 1;
        }
        assert(tensor_values(outs@) =~= regs.values().virtuals);
        Ok(outs)
    }
}

/// The values of tensors.
pub open spec fn tensor_values(tensors: Seq<Vec<I18>>) -> Seq<Seq<int>> {
    Seq::new(tensors.len(), |i: int| raws(tensors[i]@))
}

/// A program's registers, with the outputs of its first instructions.
pub open spec fn program_registers(program: AssemblerProgram, outputs: Seq<Seq<int>>) -> Registers {
    Registers {
        inputs: tensor_values(program.input_values@),
        weights: tensor_values(program.weight_values@),
        virtuals: outputs,
    }
}

/// The first instructions of a program have these outputs.
pub open spec fn all_steps(
    config: AssemblerConfig,
    program: AssemblerProgram,
    outputs: Seq<Seq<int>>,
) -> bool {
    &&& outputs.len() <= program.instructions@.len()
    &&& forall|t: int|
        0 <= t < outputs.len() ==> step(
            config,
            program_registers(program, outputs.take(t)),
            program.instructions@[t],
            Ok(#[trigger] outputs[t]),
        )
}

/// The outcome of a program: the outputs of all its instructions, or the error of the first
/// that fails.
pub open spec fn runs(
    config: AssemblerConfig,
    program: AssemblerProgram,
    res: Result<Seq<Seq<int>>, AssemblerError>,
) -> bool {
    match res {
        Ok(outputs) => outputs.len() == program.instructions@.len() && all_steps(
            config,
            program,
            outputs,
        ),
        Err(e) => exists|outputs: Seq<Seq<int>>| #[trigger]
            all_steps(config, program, outputs) && outputs.len() < program.instructions@.len()
                && step(
                config,
                program_registers(program, outputs),
                program.instructions@[outputs.len() as int],
                Err(e),
            ),
    }
}

/// Every instruction that is reached can be run.
pub open spec fn program_runnable(config: AssemblerConfig, program: AssemblerProgram) -> bool {
    forall|outputs: Seq<Seq<int>>| #[trigger]
        all_steps(config, program, outputs) && outputs.len() < program.instructions@.len()
            ==> runnable(
            config,
            program_registers(program, outputs),
            program.instructions@[outputs.len() as int],
        )
}

/// Each of the first `n` instructions proves its output.
pub open spec fn proves_first(
    config: AssemblerConfig,
    program: AssemblerProgram,
    regs: Registers,
    n: int,
) -> bool {
    forall|t: int|
        0 <= t < n ==> proves(
            config,
            regs.before(t),
            program.instructions@[t],
            #[trigger] regs.virtuals[t],
        )
}

/// Inputs and weights are in the boundary column, outputs in the bridge's.
pub open spec fn placed(config: AssemblerConfig, regs: AssignedRegisters) -> bool {
    &&& forall|i: int|
        0 <= i < regs.inputs@.len() ==> all_in((#[trigger] regs.inputs@[i]).cells@, config.boundary)
    &&& forall|i: int|
        0 <= i < regs.weights@.len() ==> all_in(
            (#[trigger] regs.weights@[i]).cells@,
            config.boundary,
        )
    &&& forall|i: int|
        0 <= i < regs.virtuals@.len() ==> all_in(
            (#[trigger] regs.virtuals@[i]).cells@,
            config.bridge.unshifted,
        )
}

/// A program is laid out in registers: their cells hold their values; whatever satisfies the
/// layout proves the output of every instruction, which holds 64-bit integers; and the recorded
/// values satisfy the layout.
pub open spec fn program_laid(
    config: AssemblerConfig,
    program: AssemblerProgram,
    before: Layouter,
    after: Layouter,
    regs: AssignedRegisters,
) -> bool {
    &&& regs.held(after)
    &&& placed(config, regs)
    &&& forall|setup: Setup, env: Assignment|
        config.ok(setup) && #[trigger] after.sat(setup, env) ==> {
            &&& proves_first(
                config,
                program,
                regs.cell_values(env),
                program.instructions@.len() as int,
            )
            &&& all_fit(env, regs.virtuals@)
        }
    &&& forall|setup: Setup|
        config.ok(setup) && config.distinct() && before.honest(setup) ==> #[trigger] after.honest(
            setup,
        )
}

pub(crate) proof fn lemma_all_held(l: Layouter, base: Layouter, regs: Seq<RegisterCells>)
    requires
        l.grows(base),
        all_held(base, regs),
    ensures
        all_held(l, regs),
{
    assert forall|i: int| 0 <= i < regs.len() implies (#[trigger] regs[i]).held(l) by {
        lemma_held(regs[i], l, base);
    }
}

/// Cells in linked columns are linked.
pub proof fn lemma_placed_linked(config: AssemblerConfig, setup: Setup, regs: AssignedRegisters)
    requires
        placed(config, regs),
        config.rules(setup),
    ensures
        regs.linked(setup),
{
    assert forall|i: int| 0 <= i < regs.inputs@.len() implies all_linked(
        setup,
        (#[trigger] regs.inputs@[i]).cells@,
    ) by {
        assert(all_in(regs.inputs@[i].cells@, config.boundary));
    }
    assert forall|i: int| 0 <= i < regs.weights@.len() implies all_linked(
        setup,
        (#[trigger] regs.weights@[i]).cells@,
    ) by {
        assert(all_in(regs.weights@[i].cells@, config.boundary));
    }
    assert forall|i: int| 0 <= i < regs.virtuals@.len() implies all_linked(
        setup,
        (#[trigger] regs.virtuals@[i]).cells@,
    ) by {
        assert(all_in(regs.virtuals@[i].cells@, config.bridge.unshifted));
    }
}

/// One more instruction is laid out.
proof fn lemma_step_taken(
    config: AssemblerConfig,
    program: AssemblerProgram,
    prev: AssignedRegisters,
    regs: AssignedRegisters,
    before: Layouter,
    l: Layouter,
    base: Layouter,
    out: RegisterCells,
)
    requires
        config.wf(),
        prev.virtuals@.len() < program.instructions@.len(),
        regs.inputs == prev.inputs,
        regs.weights == prev.weights,
        regs.virtuals@ == prev.virtuals@.push(out),
        prev.held(before),
        placed(config, prev),
        l.grows(before),
        prev.values() == program_registers(program, prev.values().virtuals),
        all_steps(config, program, prev.values().virtuals),
        step(
            config,
            prev.values(),
            program.instructions@[prev.virtuals@.len() as int],
            Ok(raws(out.values@)),
        ),
        laid(
            config,
            prev,
            program.instructions@[prev.virtuals@.len() as int],
            before,
            l,
            out,
        ),
        forall|setup: Setup, env: Assignment|
            config.ok(setup) && #[trigger] before.sat(setup, env) ==> {
                &&& proves_first(
                    config,
                    program,
                    prev.cell_values(env),
                    prev.virtuals@.len() as int,
                )
                &&& all_fit(env, prev.virtuals@)
            },
        forall|setup: Setup|
            config.ok(setup) && config.distinct() && base.honest(setup)
                ==> #[trigger] before.honest(setup),
    ensures
        regs.held(l),
        placed(config, regs),
        regs.values() == program_registers(program, regs.values().virtuals),
        all_steps(config, program, regs.values().virtuals),
        forall|setup: Setup, env: Assignment|
            config.ok(setup) && #[trigger] l.sat(setup, env) ==> {
                &&& proves_first(
                    config,
                    program,
                    regs.cell_values(env),
                    regs.virtuals@.len() as int,
                )
                &&& all_fit(env, regs.virtuals@)
            },
        forall|setup: Setup|
            config.ok(setup) && config.distinct() && base.honest(setup)
                ==> #[trigger] l.honest(setup),
{
    let n = prev.virtuals@.len() as int;
    let vs = prev.values().virtuals;
    let ws = regs.values().virtuals;
    lemma_all_held(l, before, prev.inputs@);
    lemma_all_held(l, before, prev.weights@);
    lemma_all_held(l, before, prev.virtuals@);
    assert forall|i: int| 0 <= i < regs.virtuals@.len() implies (
    #[trigger] regs.virtuals@[i]).held(l) && all_in(
        regs.virtuals@[i].cells@,
        config.bridge.unshifted,
    ) by {
        if i < n {
            assert(regs.virtuals@[i] == prev.virtuals@[i]);
        }
    }
    assert(ws =~= vs.push(raws(out.values@)));
    assert forall|t: int| 0 <= t < ws.len() implies step(
        config,
        program_registers(program, ws.take(t)),
        program.instructions@[t],
        Ok(#[trigger] ws[t]),
    ) by {
        assert(ws.take(t) =~= vs.take(t));
        if t < n {
            assert(ws[t] == vs[t]);
        } else {
            assert(vs.take(t) =~= vs);
        }
    }
    assert forall|setup: Setup, env: Assignment|
        config.ok(setup) && #[trigger] l.sat(setup, env) implies {
        &&& proves_first(config, program, regs.cell_values(env), n + 1)
        &&& all_fit(env, regs.virtuals@)
    } by {
        assert(before.sat(setup, env));
        let old_regs = prev.cell_values(env);
        let new_regs = regs.cell_values(env);
        assert(new_regs.virtuals =~= old_regs.virtuals.push(cell_raws(env, out.cells@)));
        assert forall|t: int| 0 <= t < n + 1 implies proves(
            config,
            new_regs.before(t),
            program.instructions@[t],
            #[trigger] new_regs.virtuals[t],
        ) by {
            assert(new_regs.virtuals.take(t) =~= old_regs.virtuals.take(t));
            if t < n {
                assert(new_regs.virtuals[t] == old_regs.virtuals[t]);
            } else {
                assert(old_regs.virtuals.take(t) =~= old_regs.virtuals);
            }
        }
        assert forall|i: int| 0 <= i < regs.virtuals@.len() implies all_i64(
            cell_raws(env, (#[trigger] regs.virtuals@[i]).cells@),
        ) by {
            if i < n {
                assert(regs.virtuals@[i] == prev.virtuals@[i]);
            }
        }
    }
    assert forall|setup: Setup|
        config.ok(setup) && config.distinct() && base.honest(
            setup,
        ) implies #[trigger] l.honest(setup) by {
        assert(before.honest(setup));
        lemma_placed_linked(config, setup, prev);
    }
}

} // verus!
