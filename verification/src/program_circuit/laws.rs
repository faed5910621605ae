//! What the shape of a circuit decides, and what its public values do.
use vstd::prelude::*;

use crate::assembler::chip::runs;
use crate::assembler::laws::{lemma_proved_program, tables_single_valued};
use crate::assembler::range::lemma_runs_unique;
use crate::assembler::registers::{
    all_cell_values, all_held, all_values, AssignedRegisters, RegisterCells,
};
use crate::chips::poseidon_boundary::hash::residues;
use crate::chips::reduce::{cell_raws, raws};
use crate::field::{centered, lemma_centered_of, modulus};
use crate::fixed_point::lemma_i18_range;
use crate::layout::{instance_is, Layouter};
use crate::plonk::{lemma_at_range, Assignment, ConstraintSystem, Setup};
use crate::program_circuit::circuit::AssemblerCircuit;
use crate::program_circuit::public::flatten;
use crate::program_circuit::public_cells::AssemblerCircuitConfig;
use crate::program_circuit::synthesis::circuit_laid;

verus! {

/// The layout of a circuit does not depend on its witnesses. Two circuits of one shape, laid
/// out with one configuration after the same steps, give the same steps, the same tables, and
/// records that the same assignments satisfy. So what is made from the layout of a circuit
/// without witnesses fits the layout of the circuit with them.
pub proof fn lemma_layout_ignores_witnesses(
    a: AssemblerCircuit,
    b: AssemblerCircuit,
    config: AssemblerCircuitConfig,
    before_a: Layouter,
    before_b: Layouter,
    after_a: Layouter,
    after_b: Layouter,
    regs_a: AssignedRegisters,
    regs_b: AssignedRegisters,
)
    requires
        a.shape() == b.shape(),
        before_a.trace() == before_b.trace(),
        circuit_laid(a, config, before_a, after_a, regs_a),
        circuit_laid(b, config, before_b, after_b, regs_b),
    ensures
        after_a.trace() == after_b.trace(),
        after_a.tables() == after_b.tables(),
        forall|setup: Setup, env: Assignment| #[trigger]
            after_a.sat(setup, env) <==> after_b.sat(setup, env),
{
    after_a.lemma_same_trace(after_b);
}

/// An honest layout satisfies every constraint. Some assignment with the circuit's public values
/// meets whatever the layout asks, and every rule that the configuration added holds wherever
/// the layout leaves it off.
pub proof fn lemma_honest_layout_is_accepted(
    circuit: AssemblerCircuit,
    config: AssemblerCircuitConfig,
    base: ConstraintSystem,
    before: Layouter,
    after: Layouter,
    regs: AssignedRegisters,
    setup: Setup,
)
    requires
        config.distinct(),
        config.adds(base, setup.cs),
        circuit_laid(circuit, config, before, after, regs),
        before.honest(setup),
        setup.tables == after.tables(),
    ensures
        exists|env: Assignment| #[trigger]
            after.sat(setup, env) && instance_is(
                env,
                config.assembler.config.public_instance->Some_0,
                circuit.shape().publics(circuit.leaf(), regs.values()),
            ),
        setup.rests_between(base, setup.cs),
{
    setup.cs.lemma_extends_refl();
    assert(config.rules(setup));
    assert(config.ok(setup));
    assert(config.loaded(setup));
}

/// Tensors of equal lengths in cells and in registers have equally many numbers.
proof fn lemma_flat_lengths(l: Layouter, env: Assignment, regs: Seq<RegisterCells>)
    requires
        all_held(l, regs),
    ensures
        flatten(all_cell_values(env, regs)).len() == flatten(all_values(regs)).len(),
    decreases regs.len(),
{
    if regs.len() > 0 {
        let rest = regs.drop_last();
        assert forall|i: int| 0 <= i < rest.len() implies (#[trigger] rest[i]).held(l) by {
            assert(regs[i].held(l));
        }
        lemma_flat_lengths(l, env, rest);
        assert(all_cell_values(env, regs).drop_last() =~= all_cell_values(env, rest));
        assert(all_values(regs).drop_last() =~= all_values(rest));
        assert(regs.last().held(l));
    }
}

/// Cells with the field elements of registers' numbers hold these numbers.
proof fn lemma_same_residues(l: Layouter, env: Assignment, regs: Seq<RegisterCells>)
    requires
        all_held(l, regs),
        residues(flatten(all_cell_values(env, regs))) == residues(flatten(all_values(regs))),
    ensures
        all_cell_values(env, regs) == all_values(regs),
    decreases regs.len(),
{
    let (xs, ys) = (all_cell_values(env, regs), all_values(regs));
    if regs.len() > 0 {
        let rest = regs.drop_last();
        assert forall|i: int| 0 <= i < rest.len() implies (#[trigger] rest[i]).held(l) by {
            assert(regs[i].held(l));
        }
        lemma_flat_lengths(l, env, rest);
        let (us, vs) = (all_cell_values(env, rest), all_values(rest));
        assert(xs.drop_last() =~= us);
        assert(ys.drop_last() =~= vs);
        let last = regs.last();
        assert(last.held(l));
        let n = flatten(us).len() as int;
        assert(residues(flatten(us)) =~= residues(flatten(vs))) by {
            assert forall|i: int| 0 <= i < n implies #[trigger] residues(flatten(us))[i]
                == residues(flatten(vs))[i] by {
                assert(residues(flatten(xs))[i] == residues(flatten(ys))[i]);
            }
        }
        lemma_same_residues(l, env, rest);
        let (a, b) = (cell_raws(env, last.cells@), raws(last.values@));
        assert(xs.last() == a && ys.last() == b);
        assert(a =~= b) by {
            assert forall|i: int| 0 <= i < a.len() implies #[trigger] a[i] == b[i] by {
                assert(residues(flatten(xs))[n + i] == residues(flatten(ys))[n + i]);
                assert(flatten(xs)[n + i] == a[i] && flatten(ys)[n + i] == b[i]);
                let c = last.cells@[i].cell;
                lemma_at_range(env, c.region as int, c.column, c.offset as int);
                lemma_i18_range(last.values@[i]);
                assert(a[i] == centered(env.cell(c)));
                assert(a[i] % modulus() == b[i] % modulus());
            }
        }
        assert forall|i: int| 0 <= i < regs.len() implies xs[i] == ys[i] by {
            if i < rest.len() {
                assert(xs[i] == us[i] && ys[i] == vs[i]);
            }
        }
        assert(xs =~= ys);
    } else {
        assert(xs =~= ys);
    }
}

/// A circuit without boundaries: whatever satisfies its layout, with the circuit's inputs and
/// weights in the column of public values, has the outputs of the program's run after them. No
/// other output can be made public.
pub proof fn lemma_public_outputs_cannot_be_forged(
    circuit: AssemblerCircuit,
    config: AssemblerCircuitConfig,
    before: Layouter,
    after: Layouter,
    regs: AssignedRegisters,
    setup: Setup,
    env: Assignment,
)
    requires
        !circuit.shape().bounded(),
        tables_single_valued(config.assembler.config),
        circuit_laid(circuit, config, before, after, regs),
        config.ok(setup),
        after.sat(setup, env),
        instance_is(
            env,
            config.assembler.config.public_instance->Some_0,
            residues(flatten(regs.values().inputs)) + residues(flatten(regs.values().weights)),
        ),
    ensures
        regs.cell_values(env) == regs.values(),
        instance_is(
            env,
            config.assembler.config.public_instance->Some_0,
            circuit.shape().publics(circuit.leaf(), regs.values()),
        ),
{
    let column = config.assembler.config.public_instance->Some_0;
    let shape = circuit.shape();
    let (r, v) = (regs.cell_values(env), regs.values());
    let leaf = choose|leaf: Seq<int>|
        leaf.len() == circuit.leaf().len() && instance_is(
            env,
            column,
            #[trigger] shape.publics(leaf, r),
        );
    let known = residues(flatten(v.inputs)) + residues(flatten(v.weights));
    let seen = shape.publics(leaf, r);
    lemma_flat_lengths(after, env, regs.inputs@);
    lemma_flat_lengths(after, env, regs.weights@);
    let n = flatten(v.inputs).len() as int;
    assert(residues(flatten(r.inputs)) =~= residues(flatten(v.inputs))) by {
        assert forall|i: int| 0 <= i < n implies #[trigger] residues(flatten(r.inputs))[i]
            == residues(flatten(v.inputs))[i] by {
            assert(env.at(-1, column, i) == known[i] && env.at(-1, column, i) == seen[i]);
        }
    }
    assert(residues(flatten(r.weights)) =~= residues(flatten(v.weights))) by {
        assert forall|i: int| 0 <= i < flatten(v.weights).len() implies #[trigger] residues(
            flatten(r.weights),
        )[i] == residues(flatten(v.weights))[i] by {
            assert(env.at(-1, column, n + i) == known[n + i] && env.at(-1, column, n + i)
                == seen[n + i]);
        }
    }
    lemma_same_residues(after, env, regs.inputs@);
    lemma_same_residues(after, env, regs.weights@);
    lemma_proved_program(config.assembler.config, circuit.program, r, v.virtuals);
    assert(r == v);
    assert(shape.publics(leaf, r) == shape.publics(circuit.leaf(), v));
}

/// A circuit with boundaries: whatever satisfies its layout has the circuit's weights, and, with the
/// circuit's inputs in their cells, the outputs of the program's run in theirs; the column of
/// public values then has the circuit's public values, for some leaf.
pub proof fn lemma_bounded_outputs_cannot_be_forged(
    circuit: AssemblerCircuit,
    config: AssemblerCircuitConfig,
    before: Layouter,
    after: Layouter,
    regs: AssignedRegisters,
    setup: Setup,
    env: Assignment,
)
    requires
        circuit.shape().bounded(),
        tables_single_valued(config.assembler.config),
        circuit_laid(circuit, config, before, after, regs),
        config.ok(setup),
        after.sat(setup, env),
    ensures
        regs.cell_values(env).weights == regs.values().weights,
        regs.cell_values(env).inputs == regs.values().inputs ==> regs.cell_values(env)
            == regs.values() && exists|leaf: Seq<int>|
            leaf.len() == circuit.leaf().len() && instance_is(
                env,
                config.assembler.config.public_instance->Some_0,
                #[trigger] circuit.shape().publics(leaf, regs.values()),
            ),
{
    let (r, v) = (regs.cell_values(env), regs.values());
    if r.inputs == v.inputs {
        lemma_proved_program(config.assembler.config, circuit.program, r, v.virtuals);
        assert(r == v);
    }
}

/// The values of a laid-out circuit's registers are the numbers of its program and the outputs of
/// the program's run, which the cells of the registers hold.
pub proof fn lemma_registers_hold_the_run(
    circuit: AssemblerCircuit,
    config: AssemblerCircuitConfig,
    before: Layouter,
    after: Layouter,
    regs: AssignedRegisters,
    outputs: Seq<Seq<int>>,
    env: Assignment,
    t: int,
    j: int,
)
    requires
        circuit_laid(circuit, config, before, after, regs),
        runs(config.assembler.config, circuit.program, Ok(outputs)),
        after.agrees(env),
        0 <= t < outputs.len(),
        0 <= j < outputs[t].len(),
    ensures
        regs.values().virtuals == outputs,
        regs.virtuals@.len() == outputs.len(),
        regs.virtuals@[t].cells@.len() == outputs[t].len(),
        centered(env.cell(regs.virtuals@[t].cells@[j].cell)) == outputs[t][j],
{
    lemma_runs_unique(
        config.assembler.config,
        circuit.program,
        outputs,
        Ok(regs.values().virtuals),
    );
    let r = regs.virtuals@[t];
    assert(regs.values().virtuals.len() == regs.virtuals@.len());
    assert(regs.values().virtuals[t] == raws(r.values@));
    assert(r.held(after));
    lemma_i18_range(r.values@[j]);
    lemma_centered_of(r.values@[j]@);
    assert(after.has(r.cells@[j]));
}

} // verus!
