//! The public values of a circuit and the cells that hold them.
use vstd::prelude::*;
use vstd::string::*;
use vstd::utf8::encode_utf8;

use crate::assembler::registers::{
    all_cell_values, all_held, all_values, places_of, RegisterCells,
};
use crate::assembler::semantics::Registers;
use crate::chips::bridge::all_linked;
use crate::chips::poseidon_boundary::commit::{all_have, cell_fields, env_fields};
use crate::chips::poseidon_boundary::descriptor::{Boundary, BoundaryDescriptor};
use crate::chips::poseidon_boundary::hash::{commitment, residues};
use crate::chips::poseidon_boundary::identity::{
    blake3_digest, blake3_hash, digest_fields, digest_limbs, values_of,
};
use crate::chips::reduce::{cell_raws, raws};
use crate::encode::push_all;
use crate::field::{lemma_centered_congruent, Fr};
use crate::layout::{cells_of, instance_is, AssignedCell, Cell, Layouter, Mark};
use crate::plonk::{lemma_at_range, Assignment, Column, Setup};
use crate::program_circuit::encoding::{descriptor_bytes, encode_boundary_descriptor};
use crate::program_circuit::params::CircuitShape;

verus! {

/// Tensors, one after the other.
pub open spec fn flatten(tensors: Seq<Seq<int>>) -> Seq<int>
    decreases tensors.len(),
{
    if tensors.len() == 0 {
        Seq::empty()
    } else {
        flatten(tensors.drop_last()) + tensors.last()
    }
}

/// The cells of registers, one after the other.
pub open spec fn flatten_cells(regs: Seq<RegisterCells>) -> Seq<AssignedCell>
    decreases regs.len(),
{
    if regs.len() == 0 {
        Seq::empty()
    } else {
        flatten_cells(regs.drop_last()) + regs.last().cells@
    }
}

/// Cells of registers, one register after the other.
pub open spec fn flat_places(places: Seq<Seq<Cell>>) -> Seq<Cell>
    decreases places.len(),
{
    if places.len() == 0 {
        Seq::empty()
    } else {
        flat_places(places.drop_last()) + places.last()
    }
}

/// The cells of registers, one after the other, are their places, one after the other.
pub(crate) proof fn lemma_flat_places(regs: Seq<RegisterCells>)
    ensures
        cells_of(flatten_cells(regs)) == flat_places(places_of(regs)),
    decreases regs.len(),
{
    if regs.len() > 0 {
        let rest = regs.drop_last();
        lemma_flat_places(rest);
        assert(places_of(regs).drop_last() =~= places_of(rest));
        assert(places_of(regs).last() == cells_of(regs.last().cells@));
        assert(cells_of(flatten_cells(rest) + regs.last().cells@) =~= cells_of(
            flatten_cells(rest),
        ) + cells_of(regs.last().cells@));
    } else {
        assert(cells_of(flatten_cells(regs)) =~= Seq::<Cell>::empty());
    }
}

/// The tensors at indices.
pub open spec fn selected(tensors: Seq<Seq<int>>, indices: Seq<usize>) -> Seq<Seq<int>> {
    Seq::new(indices.len(), |i: int| tensors[indices[i] as int])
}

/// What is hashed to bind a descriptor.
pub open spec fn binding_bytes(b: Boundary) -> Seq<u8> {
    encode_utf8("zkie.boundary-binding.v1\0"@) + descriptor_bytes(b)
}

/// The public values that bind a descriptor: the two halves of a digest of all its parts.
pub open spec fn binding(b: Boundary) -> Seq<int> {
    digest_limbs(blake3_digest(binding_bytes(b)))
}

/// The public values of a boundary: what binds its descriptor, and the commitment to its tensor.
pub open spec fn boundary_publics(b: Boundary, tensor: Seq<int>) -> Seq<int> {
    binding(b) + seq![commitment(b, residues(tensor))]
}

/// The public values of input boundaries.
pub open spec fn input_publics(boundaries: Seq<Boundary>, tensors: Seq<Seq<int>>) -> Seq<int>
    decreases boundaries.len(),
{
    if boundaries.len() == 0 {
        Seq::empty()
    } else {
        let n = boundaries.len() - 1;
        input_publics(boundaries.drop_last(), tensors) + boundary_publics(
            boundaries[n],
            tensors[n],
        )
    }
}

/// The public values of output boundaries.
pub open spec fn output_publics(
    boundaries: Seq<(usize, Boundary)>,
    tensors: Seq<Seq<int>>,
) -> Seq<int>
    decreases boundaries.len(),
{
    if boundaries.len() == 0 {
        Seq::empty()
    } else {
        let last = boundaries.last();
        output_publics(boundaries.drop_last(), tensors) + boundary_publics(
            last.1,
            tensors[last.0 as int],
        )
    }
}

impl CircuitShape {
    /// The public values of a circuit. With boundaries: the leaf's values, the inputs'
    /// boundaries, the count of the outputs' boundaries and these, the count of the weights and
    /// these. Without: inputs, weights and the selected outputs.
    pub open spec fn publics(self, leaf: Seq<int>, regs: Registers) -> Seq<int> {
        if self.bounded() {
            leaf + input_publics(self.boundary_inputs, regs.inputs) + seq![
                self.boundary_outputs.len() as int,
            ] + output_publics(self.boundary_outputs, regs.virtuals) + seq![
                flatten(regs.weights).len() as int,
            ] + residues(flatten(regs.weights))
        } else {
            residues(flatten(regs.inputs)) + residues(flatten(regs.weights)) + residues(
                flatten(selected(regs.virtuals, self.public_outputs)),
            )
        }
    }
}

impl BoundaryDescriptor {
    /// The two public values that bind the descriptor.
    pub fn public_binding_fields(&self) -> (r: [Fr; 2])
        ensures
            values_of(r@) == binding(self@),
    {
        let mut bytes: Vec<u8> = Vec::new();
        push_all(&mut bytes, "zkie.boundary-binding.v1\0".as_bytes());
        encode_boundary_descriptor(&mut bytes, self);
        assert(bytes@ =~= binding_bytes(self@));
        digest_fields(&blake3_hash(&bytes))
    }
}

/// The signed integers of cells are congruent to what the cells hold.
pub proof fn lemma_env_fields(env: Assignment, cells: Seq<AssignedCell>)
    ensures
        env_fields(env, cells) == residues(cell_raws(env, cells)),
{
    broadcast use lemma_at_range;

    assert forall|i: int| 0 <= i < cells.len() implies #[trigger] env_fields(env, cells)[i]
        == residues(cell_raws(env, cells))[i] by {
        lemma_centered_congruent(env.cell(cells[i].cell));
    }
    assert(env_fields(env, cells) =~= residues(cell_raws(env, cells)));
}

/// Cells that hold a register hold the residues of its values.
pub proof fn lemma_cell_fields(l: Layouter, r: RegisterCells)
    requires
        r.held(l),
    ensures
        cell_fields(r.cells@) == residues(raws(r.values@)),
{
    assert(cell_fields(r.cells@) =~= residues(raws(r.values@))) by {
        assert forall|i: int| 0 <= i < r.cells@.len() implies #[trigger] cell_fields(r.cells@)[i]
            == residues(raws(r.values@))[i] by {
            assert(l.has(r.cells@[i]));
        }
    }
}

proof fn lemma_residues_concat(a: Seq<int>, b: Seq<int>)
    ensures
        residues(a + b) == residues(a) + residues(b),
{
    assert(residues(a + b) =~= residues(a) + residues(b));
}

/// The cells of registers, one after the other, hold the registers' values.
pub proof fn lemma_flatten(l: Layouter, regs: Seq<RegisterCells>)
    requires
        all_held(l, regs),
    ensures
        cell_fields(flatten_cells(regs)) == residues(flatten(all_values(regs))),
        forall|env: Assignment| #[trigger]
            env_fields(env, flatten_cells(regs)) == residues(flatten(all_cell_values(env, regs))),
        flatten_cells(regs).len() == flatten(all_values(regs)).len(),
        forall|env: Assignment|
            flatten(#[trigger] all_cell_values(env, regs)).len() == flatten(all_values(regs)).len(),
        all_have(l, flatten_cells(regs)),
    decreases regs.len(),
{
    if regs.len() == 0 {
        assert(cell_fields(flatten_cells(regs)) =~= residues(flatten(all_values(regs))));
        assert forall|env: Assignment| #[trigger] env_fields(env, flatten_cells(regs)) == residues(
            flatten(all_cell_values(env, regs)),
        ) by {
            assert(env_fields(env, flatten_cells(regs)) =~= residues(
                flatten(all_cell_values(env, regs)),
            ));
        }
    } else {
        let rest = regs.drop_last();
        let last = regs.last();
        assert(last == regs[regs.len() - 1]);
        assert(all_held(l, rest)) by {
            assert forall|i: int| 0 <= i < rest.len() implies (#[trigger] rest[i]).held(l) by {
                assert(rest[i] == regs[i]);
            }
        }
        lemma_flatten(l, rest);
        assert(last.held(l));
        lemma_cell_fields(l, last);
        let cells = flatten_cells(rest);
        let vs = all_values(regs);
        assert(vs.drop_last() =~= all_values(rest));
        assert(vs.last() == raws(last.values@));
        assert(cell_fields(cells + last.cells@) =~= cell_fields(cells) + cell_fields(last.cells@));
        lemma_residues_concat(flatten(all_values(rest)), raws(last.values@));
        assert forall|env: Assignment| #[trigger] env_fields(env, flatten_cells(regs)) == residues(
            flatten(all_cell_values(env, regs)),
        ) by {
            let ws = all_cell_values(env, regs);
            assert(ws.drop_last() =~= all_cell_values(env, rest));
            assert(ws.last() == cell_raws(env, last.cells@));
            lemma_env_fields(env, last.cells@);
            assert(env_fields(env, cells + last.cells@) =~= env_fields(env, cells) + env_fields(
                env,
                last.cells@,
            ));
            assert(env_fields(env, cells) == residues(flatten(all_cell_values(env, rest))));
            lemma_residues_concat(
                flatten(all_cell_values(env, rest)),
                cell_raws(env, last.cells@),
            );
        }
        assert forall|env: Assignment|
            flatten(#[trigger] all_cell_values(env, regs)).len() == flatten(
                all_values(regs),
            ).len() by {
            assert(all_cell_values(env, regs).drop_last() =~= all_cell_values(env, rest));
        }
        assert forall|i: int| 0 <= i < flatten_cells(regs).len() implies l.has(
            #[trigger] flatten_cells(regs)[i],
        ) by {
            let n = cells.len();
            if i < n {
                assert(flatten_cells(regs)[i] == cells[i]);
            } else {
                assert(flatten_cells(regs)[i] == last.cells@[i - n]);
            }
        }
    }
}

/// Appends cells.
pub(crate) fn push_cells(cells: &mut Vec<AssignedCell>, more: &Vec<AssignedCell>)
    ensures
        final(cells)@ == old(cells)@ + more@,
{
    let ghost before = cells@;
    let mut i: usize = 0;
    while i < more.len()
        invariant
            i <= more@.len(),
            cells@ == before + more@.take(i as int),
        decreases more@.len() - i,
    {
        cells.push(more[i]);
        assert(more@.take(i + 1) =~= more@.take(i as int).push(more@[i as int]));
        i += 1;
    }
    assert(more@.take(i as int) =~= more@);
}

/// Appends the cells of registers.
pub(crate) fn push_registers(cells: &mut Vec<AssignedCell>, regs: &Vec<RegisterCells>)
    ensures
        final(cells)@ == old(cells)@ + flatten_cells(regs@),
{
    let ghost before = cells@;
    let mut i: usize = 0;
    assert(before + flatten_cells(regs@.take(0)) =~= before);
    while i < regs.len()
        invariant
            i <= regs@.len(),
            cells@ == before + flatten_cells(regs@.take(i as int)),
        decreases regs@.len() - i,
    {
        push_cells(cells, &regs[i].cells);
        proof {
            let next = regs@.take(i + 1);
            assert(next.drop_last() =~= regs@.take(i as int));
            assert(before + flatten_cells(regs@.take(i as int)) + regs@[i as int].cells@ =~= before
                + (flatten_cells(regs@.take(i as int)) + regs@[i as int].cells@));
        }
        i += 1;
    }
    assert(regs@.take(i as int) =~= regs@);
}

/// The layout after the first `n` cells are made public.
pub closed spec fn publics_trace(t: Seq<Mark>, column: Column, cells: Seq<Cell>, n: int) -> Seq<Mark>
    decreases n,
{
    if n <= 0 {
        t
    } else {
        publics_trace(t, column, cells, n - 1).push(
            Mark::Instance { cell: cells[n - 1], column, row: (n - 1) as usize },
        )
    }
}

/// Makes cells public, in order, from the first row of a column.
pub(crate) fn bind_publics(layouter: &mut Layouter, column: Column, cells: &Vec<AssignedCell>)
    ensures
        final(layouter).grows(*old(layouter)),
        final(layouter).trace() == publics_trace(
            old(layouter).trace(),
            column,
            cells_of(cells@),
            cells@.len() as int,
        ),
        forall|env: Assignment| #[trigger] final(layouter).agrees(env) <==> old(layouter).agrees(env),
        forall|setup: Setup, env: Assignment| #[trigger]
            final(layouter).sat(setup, env) ==> instance_is(env, column, env_fields(env, cells@)),
        forall|setup: Setup, env: Assignment|
            setup.cs.linked(column) && all_linked(setup, cells@) && old(layouter).sat(setup, env)
                && instance_is(env, column, env_fields(env, cells@)) ==> #[trigger] final(layouter).sat(setup, env),
{
    let ghost base = *layouter;
    let mut i: usize = 0;
    while i < cells.len()
        invariant
            i <= cells@.len(),
            layouter.grows(base),
            layouter.trace() == publics_trace(base.trace(), column, cells_of(cells@), i as int),
            forall|env: Assignment| #[trigger] layouter.agrees(env) <==> base.agrees(env),
            forall|setup: Setup, env: Assignment, j: int|
                #![trigger layouter.sat(setup, env), cells@[j]]
                layouter.sat(setup, env) && 0 <= j < i ==> env.at(-1, column, j) == env.cell(
                    cells@[j].cell,
                ),
            forall|setup: Setup, env: Assignment|
                setup.cs.linked(column) && all_linked(setup, cells@) && base.sat(setup, env)
                    && instance_is(env, column, env_fields(env, cells@)) ==> #[trigger] layouter.sat(setup, env),
        decreases cells@.len() - i,
    {
        let ghost before = *layouter;
        layouter.constrain_instance(cells[i].cell, column, i);
        proof {
            assert forall|setup: Setup, env: Assignment, j: int|
                #![trigger layouter.sat(setup, env), cells@[j]]
                layouter.sat(setup, env) && 0 <= j < i + 1 implies env.at(-1, column, j)
                == env.cell(cells@[j].cell) by {
                assert(before.sat(setup, env));
            }
            assert forall|setup: Setup, env: Assignment|
                setup.cs.linked(column) && all_linked(setup, cells@) && base.sat(setup, env)
                    && instance_is(
                    env,
                    column,
                    env_fields(env, cells@),
                ) implies #[trigger] layouter.sat(setup, env) by {
                assert(before.sat(setup, env));
                assert(setup.cs.linked(cells@[i as int].cell.column));
                assert(env.at(-1, column, i as int) == env_fields(env, cells@)[i as int]);
            }
        }
        i += 1;
    }
    proof {
        let l = *layouter;
        assert forall|setup: Setup, env: Assignment| #[trigger] l.sat(setup, env) implies instance_is(
            env,
            column,
            env_fields(env, cells@),
        ) by {
            assert forall|j: int| 0 <= j < env_fields(env, cells@).len() implies #[trigger] env.at(
                -1,
                column,
                j,
            ) == env_fields(env, cells@)[j] by {
                assert(cells@[j] == cells@[j]);
            }
        }
    }
}

} // verus!
