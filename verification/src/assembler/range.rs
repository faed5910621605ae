//! Whether a program can be run: the outcome of an instruction is unique, so the only outputs
//! that count are those that the program has.
use vstd::prelude::*;

use crate::assembler::chip::{
    all_steps, lemma_all_held, program_registers, program_runnable, runs, AssemblerChip,
};
use crate::assembler::config::AssemblerConfig;
use crate::assembler::error::AssemblerError;
use crate::assembler::registers::{runnable, step, AssignedRegisters};
use crate::assembler::semantics::{AssemblerInstruction, AssemblerProgram, Registers};
use crate::chips::reduce::raws;
use crate::isa::Instruction;
use crate::layout::Layouter;

verus! {

/// An instruction that succeeds has one output, and does not fail.
pub proof fn lemma_step_unique(
    config: AssemblerConfig,
    regs: Registers,
    i: AssemblerInstruction,
    out: Seq<int>,
    res: Result<Seq<int>, AssemblerError>,
)
    requires
        step(config, regs, i, Ok(out)),
        step(config, regs, i, res),
    ensures
        res == Ok::<Seq<int>, AssemblerError>(out),
{
}

/// The outputs of a program's first instructions are unique.
pub proof fn lemma_steps_unique(
    config: AssemblerConfig,
    program: AssemblerProgram,
    xs: Seq<Seq<int>>,
    ys: Seq<Seq<int>>,
    n: int,
)
    requires
        all_steps(config, program, xs),
        all_steps(config, program, ys),
        0 <= n <= xs.len(),
        n <= ys.len(),
    ensures
        xs.take(n) == ys.take(n),
    decreases n,
{
    if n > 0 {
        lemma_steps_unique(config, program, xs, ys, n - 1);
        lemma_step_unique(
            config,
            program_registers(program, xs.take(n - 1)),
            program.instructions@[n - 1],
            xs[n - 1],
            Ok(ys[n - 1]),
        );
        assert(xs.take(n) =~= xs.take(n - 1).push(xs[n - 1]));
        assert(ys.take(n) =~= ys.take(n - 1).push(ys[n - 1]));
    } else {
        assert(xs.take(n) =~= ys.take(n));
    }
}

/// A program that succeeds has one sequence of outputs, and does not fail.
pub proof fn lemma_runs_unique(
    config: AssemblerConfig,
    program: AssemblerProgram,
    outputs: Seq<Seq<int>>,
    res: Result<Seq<Seq<int>>, AssemblerError>,
)
    requires
        runs(config, program, Ok(outputs)),
        runs(config, program, res),
    ensures
        res == Ok::<Seq<Seq<int>>, AssemblerError>(outputs),
{
    match res {
        Ok(others) => {
            lemma_steps_unique(config, program, outputs, others, outputs.len() as int);
            assert(outputs.take(outputs.len() as int) =~= outputs);
            assert(others.take(outputs.len() as int) =~= others);
        },
        Err(e) => {
            let others = choose|others: Seq<Seq<int>>| #[trigger]
                all_steps(config, program, others) && others.len() < program.instructions@.len()
                    && step(
                    config,
                    program_registers(program, others),
                    program.instructions@[others.len() as int],
                    Err(e),
                );
            let n = others.len() as int;
            lemma_steps_unique(config, program, outputs, others, n);
            assert(others.take(n) =~= others);
            lemma_step_unique(
                config,
                program_registers(program, outputs.take(n)),
                program.instructions@[n],
                outputs[n],
                Err(e),
            );
        },
    }
}

impl AssemblerChip {
    /// Whether an instruction can be run.
    fn instruction_in_range(&self, regs: &AssignedRegisters, i: &AssemblerInstruction) -> (r: bool)
        requires
            self.config.wf(),
        ensures
            r == runnable(self.config, regs.values(), *i),
    {
        match &i.instruction {
            Instruction::DotGeneral { m, n, k, batch_dims, trans_a, trans_b } => {
                if batch_dims.len() > 0 || i.inputs.len() != 2 {
                    return true;
                }
                match (regs.resolve(i.inputs[0]), regs.resolve(i.inputs[1])) {
                    (Ok(_), Ok(_)) => m.checked_mul(*k).is_some() && k.checked_mul(*n).is_some(),
                    _ => true,
                }
            },
            Instruction::RmsNorm { dim, epsilon_milli } => {
                if i.inputs.len() != 2 {
                    return true;
                }
                match (regs.resolve(i.inputs[0]), regs.resolve(i.inputs[1])) {
                    (Ok(x), Ok(w)) => {
                        if x.values.len() != *dim || w.values.len() != *dim {
                            return true;
                        }
                        match self.find_rms_norm(*dim, *epsilon_milli) {
                            Some(at) => self.config.rms_norm[at].chip.in_range(
                                &x.values,
                                &w.values,
                            ),
                            None => true,
                        }
                    },
                    _ => true,
                }
            },
            _ => true,
        }
    }

    /// Whether a program can be run.
    pub fn in_range(&self, program: &AssemblerProgram) -> (r: bool)
        requires
            self.config.wf(),
        ensures
            r == program_runnable(self.config, *program),
    {
        let mut scratch = Layouter::new(true);
        let inputs = self.assign_boundaries(&mut scratch, &program.input_values);
        let ghost l1 = scratch;
        let weights = self.assign_boundaries(&mut scratch, &program.weight_values);
        let mut regs = AssignedRegisters { inputs, weights, virtuals: Vec::new() };
        proof {
            lemma_all_held(scratch, l1, inputs@);
            assert(regs.values().virtuals =~= Seq::empty());
        }
        let mut t: usize = 0;
        while t < program.instructions.len()
            invariant
                t <= program.instructions@.len(),
                self.config.wf(),
                regs.held(scratch),
                regs.values() == program_registers(*program, regs.values().virtuals),
                regs.virtuals@.len() == t,
                all_steps(self.config, *program, regs.values().virtuals),
                runnable_to(self.config, *program, regs.values().virtuals),
            decreases program.instructions@.len() - t,
        {
            let ghost vs = regs.values().virtuals;
            if !self.instruction_in_range(&regs, &program.instructions[t]) {
                assert(all_steps(self.config, *program, vs));
                return false;
            }
            let ghost before = scratch;
            let ghost prev = regs;
            match self.assign_instruction(&mut scratch, &regs, &program.instructions[t]) {
                Ok(out) => {
                    regs.virtuals.push(out);
                    proof {
                        let ws = regs.values().virtuals;
                        lemma_all_held(scratch, before, prev.inputs@);
                        lemma_all_held(scratch, before, prev.weights@);
                        lemma_all_held(scratch, before, prev.virtuals@);
                        assert forall|i: int| 0 <= i < regs.virtuals@.len() implies (
                        #[trigger] regs.virtuals@[i]).held(scratch) by {
                            if i < t {
                                assert(regs.virtuals@[i] == prev.virtuals@[i]);
                            }
                        }
                        assert(ws =~= vs.push(raws(out.values@)));
                        assert forall|s: int| 0 <= s < ws.len() implies step(
                            self.config,
                            program_registers(*program, ws.take(s)),
                            program.instructions@[s],
                            Ok(#[trigger] ws[s]),
                        ) by {
                            assert(ws.take(s) =~= vs.take(s));
                            if s < t {
                                assert(ws[s] == vs[s]);
                            } else {
                                assert(vs.take(s) =~= vs);
                            }
                        }
                        assert forall|s: int| 0 <= s < ws.len() implies #[trigger] runnable_at(
                            self.config,
                            *program,
                            ws.take(s),
                        ) by {
                            assert(ws.take(s) =~= vs.take(s));
                            if s < t {
                                assert(runnable_at(self.config, *program, vs.take(s)));
                            } else {
                                assert(vs.take(s) =~= vs);
                            }
                        }
                    }
                },
                Err(e) => {
                    proof {
                        lemma_runnable(self.config, *program, vs, Some(e));
                    }
                    return true;
                },
            }
            t += 1;
        }
        proof {
            lemma_runnable(self.config, *program, regs.values().virtuals, None);
        }
        true
    }
}

/// The instruction after the given outputs can be run.
pub open spec fn runnable_at(
    config: AssemblerConfig,
    program: AssemblerProgram,
    outputs: Seq<Seq<int>>,
) -> bool {
    runnable(
        config,
        program_registers(program, outputs),
        program.instructions@[outputs.len() as int],
    )
}

/// Each of the instructions with the given outputs can be run.
pub open spec fn runnable_to(
    config: AssemblerConfig,
    program: AssemblerProgram,
    outputs: Seq<Seq<int>>,
) -> bool {
    forall|s: int|
        0 <= s < outputs.len() ==> #[trigger] runnable_at(config, program, outputs.take(s))
}

/// A program whose instructions can be run up to its end, or up to one that fails, can be run.
proof fn lemma_runnable(
    config: AssemblerConfig,
    program: AssemblerProgram,
    outputs: Seq<Seq<int>>,
    failure: Option<AssemblerError>,
)
    requires
        all_steps(config, program, outputs),
        runnable_to(config, program, outputs),
        match failure {
            Some(e) => outputs.len() < program.instructions@.len() && runnable_at(
                config,
                program,
                outputs,
            ) && step(
                config,
                program_registers(program, outputs),
                program.instructions@[outputs.len() as int],
                Err(e),
            ),
            None => outputs.len() == program.instructions@.len(),
        },
    ensures
        program_runnable(config, program),
{
    assert forall|others: Seq<Seq<int>>| #[trigger]
        all_steps(config, program, others) && others.len()
            < program.instructions@.len() implies runnable(
        config,
        program_registers(program, others),
        program.instructions@[others.len() as int],
    ) by {
        let n = others.len() as int;
        let m = outputs.len() as int;
        if n <= m {
            lemma_steps_unique(config, program, outputs, others, n);
            assert(others.take(n) =~= others);
            if n == m {
                assert(outputs.take(n) =~= outputs);
            } else {
                assert(runnable_at(config, program, outputs.take(n)));
            }
        } else {
            lemma_steps_unique(config, program, outputs, others, m);
            assert(outputs.take(m) =~= outputs);
            lemma_step_unique(
                config,
                program_registers(program, others.take(m)),
                program.instructions@[m],
                others[m],
                Err(failure->Some_0),
            );
        }
    }
}

} // verus!
