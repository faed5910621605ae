//! The synthesis of a program's circuit.
use vstd::prelude::*;
use vstd::set_lib::set_int_range;

use crate::assembler::chip::{
    lemma_placed_linked, program_laid, program_layout, program_registers, program_runnable,
    proves_first, runs, same_tables, AssemblerChip,
};
use crate::assembler::config::{
    configurable, configured, dot_key, dot_tables_from, key_below, keys_of, needed, param_keys,
    rms_norm_key, RmsNormParams,
};
use crate::assembler::error::AssemblerError;
use crate::assembler::registers::{
    all_cell_values, all_fit, all_held, all_registers_linked, all_values, places_of,
    AssignedRegisters, Places,
};
use crate::assembler::semantics::{steps_of, AssemblerInstruction, Registers};
use crate::chips::bridge::{all_linked, lemma_hold};
use crate::chips::poseidon_boundary::chip::PoseidonBoundaryChip;
use crate::chips::poseidon_boundary::commit::{all_have, cell_fields, env_fields};
use crate::chips::poseidon_boundary::hash::residues;
use crate::chips::reduce::raws;
use crate::field::{lemma_fr_range, modulus, Fr};
use crate::layout::{
    cells_of, instance_is, AssignedCell, Laid, Layouter, Mark, SynthesisError,
};
use crate::plonk::{Assignment, ConstraintSystem, Setup};
use crate::program_circuit::circuit::{
    describes_input, describes_output, raw_tensor, raw_weights, valid_indices, AssemblerCircuit,
};
use crate::program_circuit::params::{
    boundaries, indexed_boundaries, weight_rows, AssemblerCircuitParams, CircuitShape,
};
use crate::program_circuit::public::{
    bind_publics, flat_places, flatten, flatten_cells, input_publics, lemma_flat_places,
    output_publics, publics_trace, push_cells, push_registers, selected,
};
use crate::program_circuit::public_cells::{
    cells_laid, constant_cell, fix_weights, input_cells, leaf_cells, lemma_cells_laid,
    lemma_cells_want, lemma_register_cells, lemma_registers_held, output_cells, outputs_fit,
    usable, AssemblerCircuitConfig,
};

verus! {

/// The public cells of a circuit are laid out: they hold the circuit's public values; whatever
/// satisfies the layout has in them the public values of what it has in the registers, for some
/// leaf; where boundaries are public, it has the circuit's weights; and the recorded values
/// satisfy the layout.
pub open spec fn publics_laid(
    circuit: AssemblerCircuit,
    config: AssemblerCircuitConfig,
    regs: AssignedRegisters,
    before: Layouter,
    after: Layouter,
    cells: Seq<AssignedCell>,
) -> bool {
    let shape = circuit.shape();
    &&& after.grows(before)
    &&& all_have(after, cells)
    &&& cell_fields(cells) == shape.publics(circuit.leaf(), regs.values())
    &&& forall|setup: Setup, env: Assignment|
        config.ok(setup) && #[trigger] after.sat(setup, env) ==> {
            let values = env_fields(env, cells);
            &&& values == shape.publics(
                values.take(circuit.leaf().len() as int),
                regs.cell_values(env),
            )
            &&& shape.bounded() ==> regs.cell_values(env).weights == regs.values().weights
        }
    &&& forall|setup: Setup| #[trigger] config.rules(setup) ==> all_linked(setup, cells)
    &&& forall|setup: Setup|
        config.ok(setup) && config.distinct() && before.honest(setup)
            ==> #[trigger] after.honest(setup)
}

proof fn lemma_parts(
    x: Seq<int>,
    a: Seq<int>,
    b: Seq<int>,
    c: Seq<int>,
    d: Seq<int>,
    e: Seq<int>,
)
    ensures
        x + a + b + c + d + e == x + (a + b + c + d + e),
{
    assert(x + a + b + c + d + e =~= x + (a + b + c + d + e));
}

impl AssemblerCircuitConfig {
    /// The layout after the tables.
    pub closed spec fn tables_trace(self, t: Seq<Mark>) -> Seq<Mark> {
        let c = self.assembler.config;
        c.range_tables_trace(c.rms_norm_tables_trace(t, c.rms_norm@.len() as int))
    }

    /// The layout after the public cells of a circuit with boundaries, with these cells.
    pub closed spec fn bounded_laid(self, shape: CircuitShape, t: Seq<Mark>, places: Places) -> Laid {
        let p = self.poseidon;
        let leaf = p.leaf_laid(t, shape.leaf_prefix_len as int);
        let ins = p.inputs_laid(
            leaf.trace,
            shape.boundary_inputs,
            places.inputs,
            shape.boundary_inputs.len() as int,
        );
        let outs = p.outputs_laid(
            p.constant_trace(ins.trace, shape.boundary_outputs.len() as int),
            shape.boundary_outputs,
            places.virtuals,
            shape.boundary_outputs.len() as int,
        );
        let weights = flat_places(places.weights);
        Laid {
            trace: p.weights_trace(
                p.constant_trace(outs.trace, weights.len() as int),
                places.weights,
                shape.fixed_public_weights,
                shape.fixed_public_weights.len() as int,
            ),
            cells: leaf.cells + ins.cells + seq![p.next_cell(ins.trace)] + outs.cells + seq![
                p.next_cell(outs.trace),
            ] + weights,
        }
    }

    /// The layout after the public cells of a circuit without boundaries, with these cells.
    pub closed spec fn unbounded_laid(self, shape: CircuitShape, t: Seq<Mark>, places: Places) -> Laid {
        let outputs = Seq::new(
            shape.public_outputs.len(),
            |i: int| places.virtuals[shape.public_outputs[i] as int],
        );
        Laid {
            trace: t,
            cells: flat_places(places.inputs) + flat_places(places.weights) + flat_places(outputs),
        }
    }

    /// The layout after a circuit of a shape. No value of a witness is in it.
    pub closed spec fn circuit_trace(self, shape: CircuitShape, t: Seq<Mark>) -> Seq<Mark> {
        let c = self.assembler.config;
        let program = program_layout(
            c,
            self.tables_trace(t),
            shape.input_shapes,
            shape.weight_shapes,
            shape.steps,
            shape.steps.len() as int,
        );
        let publics = if shape.bounded() {
            self.bounded_laid(shape, program.trace, program.places)
        } else {
            self.unbounded_laid(shape, program.trace, program.places)
        };
        publics_trace(
            publics.trace,
            c.public_instance->Some_0,
            publics.cells,
            publics.cells.len() as int,
        )
    }
}

impl AssemblerCircuit {
    /// The boundaries describe the registers.
    proof fn lemma_described(self, regs: AssignedRegisters, l: Layouter)
        requires
            self.wf(),
            self.shape().bounded(),
            self.has_registers(regs),
            regs.held(l),
        ensures
            self.params.boundary_inputs@.len() == regs.inputs@.len(),
            forall|i: int|
                0 <= i < self.params.boundary_inputs@.len() ==> (
                #[trigger] self.params.boundary_inputs@[i])@.error() is None
                    && self.params.boundary_inputs@[i]@.element_count
                    == regs.inputs@[i].cells@.len(),
            forall|i: int|
                0 <= i < self.params.boundary_outputs@.len() ==> (
                #[trigger] self.params.boundary_outputs@[i]).1@.error() is None
                    && self.params.boundary_outputs@[i].0 < regs.virtuals@.len(),
    {
        let ins = boundaries(self.params.boundary_inputs@);
        let outs = indexed_boundaries(self.params.boundary_outputs@);
        assert(ins == self.shape().boundary_inputs);
        assert(outs == self.shape().boundary_outputs);
        assert(regs.values().inputs.len() == self.program.input_values@.len());
        assert(regs.values().inputs.len() == regs.inputs@.len());
        assert(ins.len() == self.params.boundary_inputs@.len());
        assert forall|i: int| 0 <= i < self.params.boundary_inputs@.len() implies (
        #[trigger] self.params.boundary_inputs@[i])@.error() is None
            && self.params.boundary_inputs@[i]@.element_count == regs.inputs@[i].cells@.len() by {
            assert(describes_input(ins[i], self.program.input_values@[i]@));
            assert(regs.inputs@[i].held(l));
            assert(regs.values().inputs[i] == raws(regs.inputs@[i].values@));
            assert(regs.values().inputs[i] == raws(self.program.input_values@[i]@));
        }
        assert forall|i: int| 0 <= i < self.params.boundary_outputs@.len() implies (
        #[trigger] self.params.boundary_outputs@[i]).1@.error() is None
            && self.params.boundary_outputs@[i].0 < regs.virtuals@.len() by {
            assert(describes_output(outs[i], self.program.instructions@.len()));
        }
    }

    /// The fixed weights are the registers'.
    proof fn lemma_fixed(self, regs: AssignedRegisters)
        requires
            self.wf(),
            self.shape().bounded(),
            self.has_registers(regs),
        ensures
            self.params.fixed_public_weights@.len() == regs.weights@.len(),
            forall|i: int|
                0 <= i < self.params.fixed_public_weights@.len() ==> (
                #[trigger] self.params.fixed_public_weights@[i])@ == raw_tensor(
                    regs.weights@[i].values@,
                ),
    {
        let fixed = self.params.fixed_public_weights@;
        assert(regs.values().weights.len() == self.program.weight_values@.len());
        assert(regs.values().weights.len() == regs.weights@.len());
        assert(weight_rows(fixed) == raw_weights(self.program.weight_values@));
        assert(weight_rows(fixed).len() == fixed.len());
        assert forall|i: int| 0 <= i < fixed.len() implies (#[trigger] fixed[i])@ == raw_tensor(
            regs.weights@[i].values@,
        ) by {
            assert(weight_rows(fixed)[i] == raw_tensor(self.program.weight_values@[i]@));
            let (xs, ys) = (regs.weights@[i].values@, self.program.weight_values@[i]@);
            assert(regs.values().weights[i] == raws(xs));
            assert(regs.values().weights[i] == raws(ys));
            assert(xs.len() == raws(xs).len() && ys.len() == raws(ys).len());
            assert(raw_tensor(xs) =~= raw_tensor(ys)) by {
                assert forall|j: int| 0 <= j < xs.len() implies #[trigger] raw_tensor(xs)[j]
                    == raw_tensor(ys)[j] by {
                    assert(raws(xs)[j] == raws(ys)[j]);
                }
            }
        }
    }

    /// A leaf's cells and the cells after it are the public cells.
    proof fn lemma_bounded(
        self,
        config: AssemblerCircuitConfig,
        regs: AssignedRegisters,
        base: Layouter,
        mid: Layouter,
        l: Layouter,
        leaf: Seq<AssignedCell>,
        tail: Seq<AssignedCell>,
        want: spec_fn(Registers) -> Seq<int>,
        total: int,
    )
        requires
            self.shape().bounded(),
            mid.grows(base),
            leaf.len() == self.leaf().len(),
            all_have(mid, leaf),
            cell_fields(leaf) == self.leaf(),
            forall|setup: Setup| #[trigger] config.rules(setup) ==> all_linked(setup, leaf),
            forall|setup: Setup|
                config.ok(setup) && config.distinct() && base.honest(setup)
                    ==> #[trigger] mid.honest(setup),
            cells_laid(config, regs, mid, l, tail, want),
            forall|x: Seq<int>, r: Registers|
                flatten(r.weights).len() == total ==> #[trigger] self.shape().publics(x, r) == x
                    + want(r),
            flatten(regs.values().weights).len() == total,
            forall|env: Assignment|
                flatten(#[trigger] all_cell_values(env, regs.weights@)).len() == total,
            forall|setup: Setup, env: Assignment| #[trigger]
                l.sat(setup, env) ==> all_cell_values(env, regs.weights@) == all_values(
                    regs.weights@,
                ),
        ensures
            publics_laid(self, config, regs, base, l, leaf + tail),
    {
        let cells = leaf + tail;
        let shape = self.shape();
        lemma_hold(l, mid, leaf);
        assert forall|i: int| 0 <= i < cells.len() implies l.has(#[trigger] cells[i]) by {
            if i < leaf.len() {
                assert(cells[i] == leaf[i]);
            } else {
                assert(cells[i] == tail[i - leaf.len()]);
            }
        }
        assert(cell_fields(cells) =~= cell_fields(leaf) + cell_fields(tail));
        assert forall|setup: Setup, env: Assignment|
            config.ok(setup) && #[trigger] l.sat(setup, env) implies {
            let values = env_fields(env, cells);
            &&& values == shape.publics(
                values.take(self.leaf().len() as int),
                regs.cell_values(env),
            )
            &&& shape.bounded() ==> regs.cell_values(env).weights == regs.values().weights
        } by {
            let values = env_fields(env, cells);
            assert(values =~= env_fields(env, leaf) + env_fields(env, tail));
            assert(values.take(leaf.len() as int) =~= env_fields(env, leaf));
            assert(flatten(all_cell_values(env, regs.weights@)).len() == total);
        }
        assert forall|setup: Setup| #[trigger] config.rules(setup) implies all_linked(
            setup,
            cells,
        ) by {
            assert forall|i: int| 0 <= i < cells.len() implies setup.cs.linked(
                (#[trigger] cells[i]).cell.column,
            ) by {
                if i < leaf.len() {
                    assert(cells[i] == leaf[i]);
                } else {
                    assert(cells[i] == tail[i - leaf.len()]);
                }
            }
        }
        assert forall|setup: Setup|
            config.ok(setup) && config.distinct() && base.honest(
                setup,
            ) implies #[trigger] l.honest(setup) by {
            assert(mid.honest(setup));
        }
    }

    /// The registers are those of the program.
    spec fn has_registers(self, regs: AssignedRegisters) -> bool {
        regs.values() == program_registers(self.program, regs.values().virtuals)
            && regs.virtuals@.len() == self.program.instructions@.len()
    }

    /// The public cells of a circuit with boundaries.
    fn bounded_cells(
        &self,
        config: &AssemblerCircuitConfig,
        layouter: &mut Layouter,
        regs: &AssignedRegisters,
    ) -> (res: Result<Vec<AssignedCell>, SynthesisError>)
        requires
            self.wf(),
            self.shape().bounded(),
            self.has_registers(*regs),
            usable(*config, *regs, *old(layouter)),
        ensures
            res is Ok <==> outputs_fit(self.shape().boundary_outputs, regs.values().virtuals),
            res matches Ok(cells) ==> (Laid {
                trace: final(layouter).trace(),
                cells: cells_of(cells@),
            }) == config.bounded_laid(self.shape(), old(layouter).trace(), regs.places()),
            res matches Ok(cells) ==> publics_laid(
                *self,
                *config,
                *regs,
                *old(layouter),
                *final(layouter),
                cells@,
            ),
    {
        let ghost base = *layouter;
        let ghost shape = self.shape();
        let ghost ins = boundaries(self.params.boundary_inputs@);
        let ghost outs = indexed_boundaries(self.params.boundary_outputs@);
        let mut cells = leaf_cells(config, layouter, &self.leaf_prefix);
        let ghost leaf = cells@;
        let ghost l1 = *layouter;
        proof {
            lemma_registers_held(*regs, l1, base);
            self.lemma_described(*regs, base);
        }
        let more = input_cells(config, layouter, regs, &self.params.boundary_inputs);
        push_cells(&mut cells, &more);
        let ghost l2 = *layouter;
        let ghost rest = more@;
        let count = constant_cell(
            config,
            layouter,
            regs,
            Fr::from_u64(self.params.boundary_outputs.len() as u64),
        );
        cells.push(count);
        let ghost l3 = *layouter;
        proof {
            lemma_registers_held(*regs, l2, l1);
            lemma_registers_held(*regs, l3, l2);
        }
        let ghost f1 = |r: Registers| input_publics(ins, r.inputs);
        let ghost f2 = |r: Registers| seq![outs.len() as int];
        let ghost f12 = |r: Registers| f1(r) + f2(r);
        proof {
            lemma_cells_laid(*config, *regs, l1, l2, l3, rest, seq![count], f1, f2);
        }
        let outputs = match output_cells(config, layouter, regs, &self.params.boundary_outputs) {
            Ok(outputs) => outputs,
            Err(e) => {
                return Err(e);
            },
        };
        push_cells(&mut cells, &outputs);
        let ghost l4 = *layouter;
        let ghost f3 = |r: Registers| output_publics(outs, r.virtuals);
        let ghost f123 = |r: Registers| f12(r) + f3(r);
        proof {
            lemma_cells_laid(
                *config,
                *regs,
                l1,
                l3,
                l4,
                rest + seq![count],
                outputs@,
                f12,
                f3,
            );
            lemma_registers_held(*regs, l4, l3);
        }
        let mut weights: Vec<AssignedCell> = Vec::new();
        push_registers(&mut weights, &regs.weights);
        let ghost total = weights@.len() as int;
        let weight_count = constant_cell(
            config,
            layouter,
            regs,
            Fr::from_u64(weights.len() as u64),
        );
        cells.push(weight_count);
        let ghost l5 = *layouter;
        let ghost f4 = |r: Registers| seq![total];
        let ghost f1234 = |r: Registers| f123(r) + f4(r);
        proof {
            assert(weights@ =~= flatten_cells(regs.weights@));
            lemma_cells_laid(
                *config,
                *regs,
                l1,
                l4,
                l5,
                rest + seq![count] + outputs@,
                seq![weight_count],
                f123,
                f4,
            );
            lemma_registers_held(*regs, l5, l4);
            self.lemma_fixed(*regs);
        }
        fix_weights(config, layouter, regs, &self.params.fixed_public_weights);
        push_cells(&mut cells, &weights);
        proof {
            let l6 = *layouter;
            let f5 = |r: Registers| residues(flatten(r.weights));
            let pick = |r: Registers| r.weights;
            assert forall|setup: Setup| #[trigger] config.rules(setup) implies all_registers_linked(
                setup,
                regs.weights@,
            ) by {
                assert(regs.linked(setup));
            }
            lemma_register_cells(*config, *regs, l6, regs.weights@, pick);
            lemma_cells_want(
                *config,
                *regs,
                l6,
                l6,
                weights@,
                |r: Registers| residues(flatten(pick(r))),
                f5,
            );
            assert(cells_laid(*config, *regs, l5, l6, weights@, f5));
            let part = rest + seq![count] + outputs@ + seq![weight_count];
            lemma_cells_laid(*config, *regs, l1, l5, l6, part, weights@, f1234, f5);
            let want = |r: Registers| f1234(r) + f5(r);
            assert(cells@ =~= leaf + (part + weights@));
            lemma_flat_places(regs.weights@);
            assert(cells_of(cells@) =~= cells_of(leaf) + cells_of(rest) + seq![count.cell]
                + cells_of(outputs@) + seq![weight_count.cell] + cells_of(weights@));
            crate::program_circuit::public::lemma_flatten(l6, regs.weights@);
            assert forall|x: Seq<int>, r: Registers|
                flatten(r.weights).len() == total implies #[trigger] shape.publics(x, r) == x
                + want(r) by {
                lemma_parts(
                    x,
                    f1(r),
                    f2(r),
                    f3(r),
                    f4(r),
                    f5(r),
                );
            }
            self.lemma_bounded(
                *config,
                *regs,
                base,
                l1,
                l6,
                leaf,
                part + weights@,
                want,
                total,
            );
        }
        Ok(cells)
    }

    /// The public cells of a circuit without boundaries.
    fn unbounded_cells(
        &self,
        config: &AssemblerCircuitConfig,
        layouter: &mut Layouter,
        regs: &AssignedRegisters,
    ) -> (cells: Vec<AssignedCell>)
        requires
            self.wf(),
            !self.shape().bounded(),
            self.has_registers(*regs),
            usable(*config, *regs, *old(layouter)),
        ensures
            (Laid { trace: final(layouter).trace(), cells: cells_of(cells@) })
                == config.unbounded_laid(self.shape(), old(layouter).trace(), regs.places()),
            publics_laid(
                *self,
                *config,
                *regs,
                *old(layouter),
                *final(layouter),
                cells@,
            ),
    {
        let ghost l = *layouter;
        let ghost shape = self.shape();
        let ghost indices = self.params.public_output_indices@;
        let ghost chosen = Seq::new(indices.len(), |i: int| regs.virtuals@[indices[i] as int]);
        let mut cells: Vec<AssignedCell> = Vec::new();
        push_registers(&mut cells, &regs.inputs);
        push_registers(&mut cells, &regs.weights);
        let ghost before = cells@;
        let mut i: usize = 0;
        proof {
            assert(chosen.take(0) =~= Seq::empty());
            assert(before + flatten_cells(chosen.take(0)) =~= before);
        }
        while i < self.params.public_output_indices.len()
            invariant
                i <= indices.len(),
                indices == self.params.public_output_indices@,
                chosen == Seq::new(indices.len(), |i: int| regs.virtuals@[indices[i] as int]),
                valid_indices(indices, regs.virtuals@.len()),
                cells@ == before + flatten_cells(chosen.take(i as int)),
            decreases indices.len() - i,
        {
            let index: usize = self.params.public_output_indices[i];
            assert(indices[i as int] < regs.virtuals@.len());
            push_cells(&mut cells, &regs.virtuals[index].cells);
            proof {
                let next = chosen.take(i + 1);
                assert(next.drop_last() =~= chosen.take(i as int));
                assert(next.last() == regs.virtuals@[index as int]);
                assert(before + flatten_cells(chosen.take(i as int))
                    + regs.virtuals@[index as int].cells@ =~= before + (flatten_cells(
                    chosen.take(i as int),
                ) + regs.virtuals@[index as int].cells@));
            }
            i += 1;
        }
        proof {
            assert(chosen.take(i as int) =~= chosen);
            let f1 = |r: Registers| r.inputs;
            let f2 = |r: Registers| r.weights;
            let f3 = |r: Registers| selected(r.virtuals, indices);
            assert forall|setup: Setup| #[trigger] config.rules(setup) implies all_registers_linked(
                setup,
                regs.inputs@,
            ) && all_registers_linked(setup, regs.weights@) && all_registers_linked(
                setup,
                chosen,
            ) by {
                assert(regs.linked(setup));
                assert forall|j: int| 0 <= j < chosen.len() implies all_linked(
                    setup,
                    (#[trigger] chosen[j]).cells@,
                ) by {
                    assert(indices[j] < regs.virtuals@.len());
                    assert(chosen[j] == regs.virtuals@[indices[j] as int]);
                }
            }
            assert(all_held(l, chosen)) by {
                assert forall|j: int| 0 <= j < chosen.len() implies (#[trigger] chosen[j]).held(
                    l,
                ) by {
                    assert(indices[j] < regs.virtuals@.len());
                    assert(chosen[j] == regs.virtuals@[indices[j] as int]);
                }
            }
            assert(all_values(chosen) =~= f3(regs.values())) by {
                assert forall|j: int| 0 <= j < chosen.len() implies #[trigger] all_values(
                    chosen,
                )[j] == f3(regs.values())[j] by {
                    assert(indices[j] < regs.virtuals@.len());
                }
            }
            assert forall|env: Assignment|
                #![trigger regs.cell_values(env)]
                all_cell_values(env, chosen) == f3(regs.cell_values(env)) by {
                assert forall|j: int| 0 <= j < chosen.len() implies #[trigger] all_cell_values(
                    env,
                    chosen,
                )[j] == f3(regs.cell_values(env))[j] by {
                    assert(indices[j] < regs.virtuals@.len());
                }
                assert(all_cell_values(env, chosen) =~= f3(regs.cell_values(env)));
            }
            lemma_register_cells(*config, *regs, l, regs.inputs@, f1);
            lemma_register_cells(*config, *regs, l, regs.weights@, f2);
            lemma_register_cells(*config, *regs, l, chosen, f3);
            let g1 = |r: Registers| residues(flatten(f1(r)));
            let g2 = |r: Registers| residues(flatten(f2(r)));
            let g3 = |r: Registers| residues(flatten(f3(r)));
            let (c1, c2, c3) = (
                flatten_cells(regs.inputs@),
                flatten_cells(regs.weights@),
                flatten_cells(chosen),
            );
            lemma_cells_laid(*config, *regs, l, l, l, c1, c2, g1, g2);
            let g12 = |r: Registers| g1(r) + g2(r);
            lemma_cells_laid(*config, *regs, l, l, l, c1 + c2, c3, g12, g3);
            assert(cells@ =~= c1 + c2 + c3);
            lemma_flat_places(regs.inputs@);
            lemma_flat_places(regs.weights@);
            lemma_flat_places(chosen);
            assert(cells_of(cells@) =~= cells_of(c1) + cells_of(c2) + cells_of(c3));
            let outputs = Seq::new(
                shape.public_outputs.len(),
                |i: int| regs.places().virtuals[shape.public_outputs[i] as int],
            );
            assert(places_of(chosen) =~= outputs) by {
                assert forall|j: int| 0 <= j < chosen.len() implies #[trigger] places_of(
                    chosen,
                )[j] == outputs[j] by {
                    assert(indices[j] < regs.virtuals@.len());
                }
            }
            assert(indices == shape.public_outputs);
        }
        cells
    }

    /// The tables of the configuration are empty in the record.
    pub open spec fn tables_empty(config: AssemblerCircuitConfig, l: Layouter) -> bool {
        forall|t: int|
            config.assembler.config.first_table <= t < config.assembler.config.end_table() ==> (
            #[trigger] (l.tables())(t)).len() == 0
    }

    /// Loads the lookup tables.
    fn load_tables(config: &AssemblerCircuitConfig, layouter: &mut Layouter)
        requires
            config.wf(),
            Self::tables_empty(*config, *old(layouter)),
        ensures
            final(layouter).only_loads(*old(layouter)),
            final(layouter).trace() == config.tables_trace(old(layouter).trace()),
            forall|setup: Setup|
                setup.tables == final(layouter).tables()
                    ==> #[trigger] config.assembler.config.loaded(setup),
    {
        config.assembler.load_rms_norm_tables(layouter);
        let ghost l1 = *layouter;
        config.assembler.load_range_tables(layouter);
        proof {
            let c = config.assembler.config;
            let l2 = *layouter;
            assert forall|setup: Setup| setup.tables == l2.tables() implies #[trigger] c.loaded(
                setup,
            ) by {
                assert forall|i: int| 0 <= i < c.dot@.len() implies (#[trigger] c.dot@[i]).loaded(
                    setup,
                ) by {
                    assert(dot_tables_from(c.dot@[i], c.first_table + 2 * i));
                }
                assert(same_tables(
                    setup.tables,
                    l1.tables(),
                    c.first_rms_norm_table(),
                    c.end_table(),
                ));
                assert forall|i: int|
                    0 <= i < c.rms_norm@.len() implies #[trigger] c.rms_norm_loaded(setup, i) by {}
            }
        }
    }

    /// Lays the circuit out: the tables, the program, the public cells, and the public values.
    /// Returns the program's registers.
    pub fn synthesize_registers(&self, config: &AssemblerCircuitConfig, layouter: &mut Layouter) -> (res:
        Result<AssignedRegisters, SynthesisError>)
        requires
            self.wf(),
            config.wf(),
            program_runnable(config.assembler.config, self.program),
            Self::tables_empty(*config, *old(layouter)),
        ensures
            match res {
                Ok(regs) => circuit_laid(
                    *self,
                    *config,
                    *old(layouter),
                    *final(layouter),
                    regs,
                ),
                Err(_) => circuit_fails(*self, *config),
            },
    {
        let ghost before = *layouter;
        let ghost c = config.assembler.config;
        layouter.restrict(self.has_known_witnesses);
        let ghost base = *layouter;
        Self::load_tables(config, layouter);
        let ghost l1 = *layouter;
        let regs = match config.assembler.assign_with_cells(layouter, &self.program) {
            Ok(regs) => regs,
            Err(e) => {
                assert(runs(c, self.program, Err(e)));
                return Err(SynthesisError);
            },
        };
        let ghost l2 = *layouter;
        proof {
            assert(runs(c, self.program, Ok(regs.values().virtuals)));
            assert forall|setup: Setup| #[trigger] config.rules(setup) implies regs.linked(
                setup,
            ) by {
                lemma_placed_linked(c, setup, regs);
            }
        }
        let bounded = self.params.boundary_inputs.len() > 0 || self.params.boundary_outputs.len()
            > 0;
        assert(bounded == self.shape().bounded());
        let cells = if bounded {
            self.bounded_cells(config, layouter, &regs)?
        } else {
            self.unbounded_cells(config, layouter, &regs)
        };
        let ghost l3 = *layouter;
        let column = match config.assembler.config.public_instance {
            Some(column) => column,
            None => {
                return Err(SynthesisError);
            },
        };
        bind_publics(layouter, column, &cells);
        proof {
            assert(layouter.trace() == config.circuit_trace(self.shape(), base.trace()));
            lemma_circuit_laid(
                *self,
                *config,
                base,
                l1,
                l2,
                l3,
                *layouter,
                regs,
                cells@,
            );
            assert forall|setup: Setup| before.honest(setup) == #[trigger] base.honest(setup) by {
                assert forall|env: Assignment| #[trigger]
                    before.agrees(env) == base.agrees(env) by {
                    assert(base.agrees(env) == before.agrees(env));
                }
                assert forall|env: Assignment| #[trigger]
                    before.sat(setup, env) == base.sat(setup, env) by {
                    assert(base.sat(setup, env) == before.sat(setup, env));
                }
            }
        }
        Ok(regs)
    }

    /// Lays the circuit out.
    pub fn synthesize(&self, config: &AssemblerCircuitConfig, layouter: &mut Layouter) -> (res: Result<
        (),
        SynthesisError,
    >)
        requires
            self.wf(),
            config.wf(),
            program_runnable(config.assembler.config, self.program),
            Self::tables_empty(*config, *old(layouter)),
        ensures
            match res {
                Ok(()) => exists|regs: AssignedRegisters| #[trigger]
                    circuit_laid(*self, *config, *old(layouter), *final(layouter), regs),
                Err(_) => circuit_fails(*self, *config),
            },
    {
        self.synthesize_registers(config, layouter)?;
        Ok(())
    }
}

impl AssemblerCircuit {
    /// Configures the circuit for parameters, each normalization with its own, which are in the
    /// order of `rms_norm_keys`.
    pub fn configure_with_params(
        meta: &mut ConstraintSystem,
        params: &AssemblerCircuitParams,
        rms_norm: &Vec<RmsNormParams>,
    ) -> (config: AssemblerCircuitConfig)
        requires
            configurable(*old(meta), params.instructions@, rms_norm@),
            old(meta).advice + 8 * params.instructions@.len() + 22 * rms_norm@.len() + 17
                <= usize::MAX,
            old(meta).fixed + 4 <= usize::MAX,
        ensures
            config.wf(),
            config.distinct(),
            exists|mid: ConstraintSystem| #[trigger]
                configured(
                    *old(meta),
                    mid,
                    params.instructions@,
                    rms_norm@,
                    true,
                    config.assembler.config,
                ) && final(meta).advice == mid.advice + 3 && final(meta).tables == mid.tables,
            final(meta).fixed == old(meta).fixed + 4,
            final(meta).instance == old(meta).instance + 1,
            config.adds(*old(meta), *final(meta)),
    {
        let ghost base = *meta;
        let assembler = AssemblerChip::configure_with_rms_norm_domains_and_public_instances(
            meta,
            &params.instructions,
            rms_norm,
        );
        let ghost mid = *meta;
        proof {
            let key = |i: AssemblerInstruction| dot_key(i);
            lemma_key_count(key, params.instructions@, assembler.dot_keys());
        }
        let poseidon = PoseidonBoundaryChip::configure(meta);
        let config = AssemblerCircuitConfig {
            assembler: AssemblerChip::construct(assembler),
            poseidon,
        };
        proof {
            meta.lemma_extends_trans(mid, base);
            assert forall|setup: Setup| setup.cs.extends(*meta) implies #[trigger] config.rules(
                setup,
            ) by {
                setup.cs.lemma_extends_trans(*meta, mid);
                assert(assembler.rules(setup));
                assert(poseidon.ok(setup));
            }
            assert forall|setup: Setup|
                setup.cs.extends(*meta) && #[trigger] config.loaded(
                    setup,
                ) implies setup.rests_between(base, *meta) by {
                setup.cs.lemma_extends_trans(*meta, mid);
                assert(assembler.loaded(setup));
                setup.lemma_rests_between(base, mid, *meta);
            }
        }
        config
    }

    /// Configures the circuit of an empty program.
    pub fn configure(meta: &mut ConstraintSystem) -> (config: AssemblerCircuitConfig)
        requires
            old(meta).advice + 17 <= usize::MAX,
            old(meta).tables + 2 <= usize::MAX,
            old(meta).fixed + 4 <= usize::MAX,
            old(meta).instance < usize::MAX,
        ensures
            config.wf(),
            config.distinct(),
            config.assembler.config.dot@.len() == 0,
            config.assembler.config.rms_norm@.len() == 0,
            final(meta).advice == old(meta).advice + 17,
            final(meta).tables == old(meta).tables + 2,
            final(meta).fixed == old(meta).fixed + 4,
            final(meta).instance == old(meta).instance + 1,
            config.adds(*old(meta), *final(meta)),
    {
        let params = AssemblerCircuitParams::default();
        let none: Vec<RmsNormParams> = Vec::new();
        let ghost base = *meta;
        proof {
            assert(steps_of(params.instructions@).len() == params.instructions@.len());
            let key = |i: AssemblerInstruction| rms_norm_key(i);
            assert(keys_of(key, params.instructions@, param_keys(none@)));
        }
        let config = AssemblerCircuit::configure_with_params(meta, &params, &none);
        proof {
            let key = |i: AssemblerInstruction| dot_key(i);
            let keys = config.assembler.config.dot_keys();
            if keys.len() > 0 {
                assert(keys.contains(keys[0]));
            }
        }
        config
    }
}

/// There are no more keys than instructions.
proof fn lemma_key_count(
    key: spec_fn(AssemblerInstruction) -> Option<(usize, u64)>,
    instructions: Seq<AssemblerInstruction>,
    keys: Seq<(usize, u64)>,
)
    requires
        keys_of(key, instructions, keys),
    ensures
        keys.len() <= instructions.len(),
{
    let at = Seq::new(
        keys.len(),
        |j: int|
            choose|i: int|
                0 <= i < instructions.len() && #[trigger] key(instructions[i]) == Some(keys[j]),
    );
    assert forall|j: int| 0 <= j < keys.len() implies 0 <= #[trigger] at[j] < instructions.len()
        && key(instructions[at[j]]) == Some(keys[j]) by {
        assert(keys.contains(keys[j]));
        assert(needed(key, instructions, keys[j]));
    }
    assert(at.no_duplicates()) by {
        assert forall|a: int, b: int| 0 <= a < at.len() && 0 <= b < at.len() && a != b implies at[a]
            != at[b] by {
            if at[a] == at[b] {
                assert(keys[a] == keys[b]);
                if a < b {
                    assert(key_below(keys[a], keys[b]));
                } else {
                    assert(key_below(keys[b], keys[a]));
                }
            }
        }
    }
    let all = set_int_range(0, instructions.len() as int);
    vstd::set_lib::lemma_int_range(0, instructions.len() as int);
    at.unique_seq_to_set();
    assert(at.to_set().subset_of(all));
    vstd::set_lib::lemma_len_subset(at.to_set(), all);
}

/// The program of a circuit fails, or an output has another length than its boundary says.
pub open spec fn circuit_fails(circuit: AssemblerCircuit, config: AssemblerCircuitConfig) -> bool {
    let c = config.assembler.config;
    ||| exists|e: AssemblerError| #[trigger] runs(c, circuit.program, Err(e))
    ||| exists|outputs: Seq<Seq<int>>| #[trigger]
        runs(c, circuit.program, Ok(outputs)) && circuit.shape().bounded() && !outputs_fit(
            circuit.shape().boundary_outputs,
            outputs,
        )
}

/// A circuit is laid out in registers. The registers have the values of the program's run. The
/// layout is that of the circuit's shape, and its values count as witnesses only if the
/// circuit's do. The tables that it loads are those of the configuration, and no lookup fails
/// at a row where it is off.
/// Whatever satisfies the layout has, in the column of public values, the public values of what
/// it has in the registers, and the registers prove the program; with boundaries the weights
/// are the circuit's. And some assignment with the circuit's public values satisfies the layout.
pub open spec fn circuit_laid(
    circuit: AssemblerCircuit,
    config: AssemblerCircuitConfig,
    before: Layouter,
    after: Layouter,
    regs: AssignedRegisters,
) -> bool {
    let c = config.assembler.config;
    let column = c.public_instance->Some_0;
    let shape = circuit.shape();
    &&& regs.values() == program_registers(circuit.program, regs.values().virtuals)
    &&& runs(c, circuit.program, Ok(regs.values().virtuals))
    &&& shape.bounded() ==> outputs_fit(shape.boundary_outputs, regs.values().virtuals)
    &&& regs.held(after)
    &&& after.known == (before.known && circuit.known())
    &&& after.trace() == config.circuit_trace(shape, before.trace())
    &&& forall|setup: Setup|
        setup.tables == after.tables() && config.rules(setup) ==> #[trigger] config.ok(setup)
            && config.rests(setup)
    &&& forall|setup: Setup, env: Assignment|
        config.ok(setup) && #[trigger] after.sat(setup, env) ==> proves_publics(
            circuit,
            config,
            regs,
            env,
        )
    &&& forall|setup: Setup|
        #[trigger] config.ok(setup) && config.distinct() && before.honest(setup) ==> exists|
            env: Assignment,
        | #[trigger]
            after.sat(setup, env) && instance_is(
                env,
                column,
                shape.publics(circuit.leaf(), regs.values()),
            )
}

/// The public values of an assignment are those of its registers, which prove the program.
pub open spec fn proves_publics(
    circuit: AssemblerCircuit,
    config: AssemblerCircuitConfig,
    regs: AssignedRegisters,
    env: Assignment,
) -> bool {
    let c = config.assembler.config;
    let column = c.public_instance->Some_0;
    let shape = circuit.shape();
    let r = regs.cell_values(env);
    &&& exists|leaf: Seq<int>|
        leaf.len() == circuit.leaf().len() && instance_is(
            env,
            column,
            #[trigger] shape.publics(leaf, r),
        )
    &&& shape.bounded() ==> r.weights == regs.values().weights
    &&& proves_first(c, circuit.program, r, circuit.program.instructions@.len() as int)
    &&& all_fit(env, regs.virtuals@)
}

/// The parts of a layout are the layout.
proof fn lemma_circuit_laid(
    circuit: AssemblerCircuit,
    config: AssemblerCircuitConfig,
    base: Layouter,
    l1: Layouter,
    l2: Layouter,
    l3: Layouter,
    l4: Layouter,
    regs: AssignedRegisters,
    cells: Seq<AssignedCell>,
)
    requires
        config.wf(),
        l1.only_loads(base),
        base.known == (base.known && circuit.known()),
        forall|setup: Setup|
            setup.tables == l1.tables() ==> #[trigger] config.assembler.config.loaded(setup),
        l2.grows(l1),
        regs.values() == program_registers(circuit.program, regs.values().virtuals),
        runs(config.assembler.config, circuit.program, Ok(regs.values().virtuals)),
        circuit.shape().bounded() ==> outputs_fit(
            circuit.shape().boundary_outputs,
            regs.values().virtuals,
        ),
        program_laid(config.assembler.config, circuit.program, l1, l2, regs),
        publics_laid(circuit, config, regs, l2, l3, cells),
        l4.grows(l3),
        l4.trace() == config.circuit_trace(circuit.shape(), base.trace()),
        forall|env: Assignment| #[trigger] l4.agrees(env) <==> l3.agrees(env),
        forall|setup: Setup, env: Assignment| #[trigger]
            l4.sat(setup, env) ==> instance_is(
                env,
                config.assembler.config.public_instance->Some_0,
                env_fields(env, cells),
            ),
        forall|setup: Setup, env: Assignment|
            setup.cs.linked(config.assembler.config.public_instance->Some_0) && all_linked(
                setup,
                cells,
            ) && l3.sat(setup, env) && instance_is(
                env,
                config.assembler.config.public_instance->Some_0,
                env_fields(env, cells),
            ) ==> #[trigger] l4.sat(setup, env),
    ensures
        circuit_laid(circuit, config, base, l4, regs),
{
    let c = config.assembler.config;
    let column = c.public_instance->Some_0;
    let shape = circuit.shape();
    let publics = shape.publics(circuit.leaf(), regs.values());
    lemma_registers_held(regs, l3, l2);
    lemma_registers_held(regs, l4, l3);
    assert(cells.len() == publics.len());
    assert(shape.bounded() ==> publics.len() >= circuit.leaf().len());
    assert forall|setup: Setup|
        setup.tables == l4.tables() && config.rules(setup) implies #[trigger] config.ok(setup)
        && config.rests(setup) by {
        assert(c.loaded(setup));
        config.lemma_rests(setup);
    }
    assert forall|setup: Setup, env: Assignment|
        config.ok(setup) && #[trigger] l4.sat(setup, env) implies proves_publics(
        circuit,
        config,
        regs,
        env,
    ) by {
        assert(l3.sat(setup, env));
        assert(l2.sat(setup, env));
        let values = env_fields(env, cells);
        let r = regs.cell_values(env);
        if shape.bounded() {
            let leaf = values.take(circuit.leaf().len() as int);
            assert(instance_is(env, column, shape.publics(leaf, r)));
        } else {
            let leaf = circuit.leaf();
            assert(shape.publics(leaf, r) == values);
            assert(instance_is(env, column, shape.publics(leaf, r)));
        }
    }
    assert forall|setup: Setup|
        #[trigger] config.ok(setup) && config.distinct() && base.honest(setup) implies exists|
        env: Assignment,
    | #[trigger] l4.sat(setup, env) && instance_is(env, column, publics) by {
        assert(config.rules(setup));
        assert(l1.honest(setup)) by {
            assert forall|env: Assignment| #[trigger] l1.agrees(env) implies l1.sat(
                setup,
                env,
            ) by {
                assert(base.agrees(env));
                assert(base.sat(setup, env));
            }
        }
        assert(l2.honest(setup));
        assert(l3.honest(setup));
        let env0 = l3.lemma_honest_satisfiable(setup);
        assert forall|i: int| 0 <= i < publics.len() implies 0 <= #[trigger] publics[i]
            < modulus() by {
            assert(publics[i] == cells[i].value@);
            lemma_fr_range(cells[i].value);
        }
        let env = l3.lemma_with_instance(env0, column, publics);
        assert(l3.sat(setup, env));
        assert(env_fields(env, cells) =~= publics) by {
            assert forall|i: int| 0 <= i < cells.len() implies #[trigger] env_fields(env, cells)[i]
                == publics[i] by {
                assert(l3.has(cells[i]));
                assert(publics[i] == cell_fields(cells)[i]);
            }
        }
        assert(l4.sat(setup, env));
    }
}

} // verus!
