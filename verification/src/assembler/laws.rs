//! What a satisfied layout says of a program's run.
use vstd::prelude::*;

use crate::assembler::chip::{
    all_steps, program_laid, program_registers, proves_first, runs, tensor_values,
};
use crate::assembler::config::AssemblerConfig;
use crate::assembler::registers::{
    all_cell_values, all_values, is_rms_norm, proves, step, the_rms_norm, AssignedRegisters,
};
use crate::assembler::semantics::{AssemblerInstruction, AssemblerProgram, Registers};
use crate::chips::lookup::{is_function_row, lemma_value_at, single_valued, value_at};
use crate::isa::Instruction;
use crate::layout::Layouter;
use crate::plonk::{Assignment, Setup};

verus! {

/// No table of a normalization has two outputs at one point.
pub open spec fn tables_single_valued(config: AssemblerConfig) -> bool {
    forall|i: int|
        0 <= i < config.rms_norm@.len() ==> single_valued(
            (#[trigger] config.rms_norm@[i]).chip.domain(),
        )
}

/// What an instruction proves of its output is what it computes.
pub proof fn lemma_proved_is_computed(
    config: AssemblerConfig,
    regs: Registers,
    i: AssemblerInstruction,
    proved: Seq<int>,
    computed: Seq<int>,
)
    requires
        tables_single_valued(config),
        proves(config, regs, i, proved),
        step(config, regs, i, Ok(computed)),
    ensures
        proved == computed,
{
    if let Instruction::RmsNorm { dim, epsilon_milli } = i.instruction {
        let at = choose|j: int| #[trigger] is_rms_norm(config, dim, epsilon_milli, j);
        assert(is_rms_norm(config, dim, epsilon_milli, at));
        let chip = the_rms_norm(config, dim, epsilon_milli).chip;
        assert(chip == config.rms_norm@[at].chip);
        let (xs, ws) = (regs.get(i.inputs@[0]), regs.get(i.inputs@[1]));
        let point = chip.config.mean_square(xs) + chip.config.epsilon@;
        lemma_value_at(chip.domain(), point);
        let v = choose|v: int| #[trigger]
            is_function_row(chip.domain(), point, v) && proved == chip.config.normalized(
                xs,
                ws,
                v,
            );
        assert(is_function_row(chip.domain(), point, value_at(chip.domain(), point)->Some_0@));
    }
}

/// Registers that prove a program, with its inputs and weights, have the outputs of its run.
pub proof fn lemma_proved_program(
    config: AssemblerConfig,
    program: AssemblerProgram,
    regs: Registers,
    outputs: Seq<Seq<int>>,
)
    requires
        tables_single_valued(config),
        runs(config, program, Ok(outputs)),
        regs.inputs == tensor_values(program.input_values@),
        regs.weights == tensor_values(program.weight_values@),
        regs.virtuals.len() == outputs.len(),
        proves_first(config, program, regs, program.instructions@.len() as int),
    ensures
        regs.virtuals == outputs,
{
    lemma_proved_first(config, program, regs, outputs, outputs.len() as int);
    assert(regs.virtuals.take(outputs.len() as int) =~= regs.virtuals);
    assert(outputs.take(outputs.len() as int) =~= outputs);
}

proof fn lemma_proved_first(
    config: AssemblerConfig,
    program: AssemblerProgram,
    regs: Registers,
    outputs: Seq<Seq<int>>,
    n: int,
)
    requires
        tables_single_valued(config),
        all_steps(config, program, outputs),
        regs.inputs == tensor_values(program.input_values@),
        regs.weights == tensor_values(program.weight_values@),
        regs.virtuals.len() == outputs.len(),
        proves_first(config, program, regs, outputs.len() as int),
        0 <= n <= outputs.len(),
    ensures
        regs.virtuals.take(n) == outputs.take(n),
    decreases n,
{
    if n > 0 {
        lemma_proved_first(config, program, regs, outputs, n - 1);
        assert(program_registers(program, outputs.take(n - 1)) == regs.before(n - 1));
        assert(proves(
            config,
            regs.before(n - 1),
            program.instructions@[n - 1],
            regs.virtuals[n - 1],
        ));
        assert(step(
            config,
            program_registers(program, outputs.take(n - 1)),
            program.instructions@[n - 1],
            Ok(outputs[n - 1]),
        ));
        lemma_proved_is_computed(
            config,
            regs.before(n - 1),
            program.instructions@[n - 1],
            regs.virtuals[n - 1],
            outputs[n - 1],
        );
        assert(regs.virtuals.take(n) =~= regs.virtuals.take(n - 1).push(regs.virtuals[n - 1]));
        assert(outputs.take(n) =~= outputs.take(n - 1).push(outputs[n - 1]));
    } else {
        assert(regs.virtuals.take(n) =~= outputs.take(n));
    }
}

/// A program that is laid out: whatever satisfies the layout, with the program's inputs and
/// weights in their cells, has the outputs of the program's run in theirs. A cell with another
/// output cannot be proved.
pub proof fn lemma_outputs_cannot_be_forged(
    config: AssemblerConfig,
    program: AssemblerProgram,
    before: Layouter,
    after: Layouter,
    regs: AssignedRegisters,
    setup: Setup,
    env: Assignment,
)
    requires
        tables_single_valued(config),
        regs.values() == program_registers(program, regs.values().virtuals),
        runs(config, program, Ok(regs.values().virtuals)),
        program_laid(config, program, before, after, regs),
        config.ok(setup),
        after.sat(setup, env),
        all_cell_values(env, regs.inputs@) == all_values(regs.inputs@),
        all_cell_values(env, regs.weights@) == all_values(regs.weights@),
    ensures
        regs.cell_values(env).virtuals == regs.values().virtuals,
{
    lemma_proved_program(config, program, regs.cell_values(env), regs.values().virtuals);
}

} // verus!
