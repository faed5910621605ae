//! The configuration of a program's circuit, and its public cells.
use vstd::prelude::*;

use crate::assembler::chip::{lemma_all_held, AssemblerChip};
use crate::assembler::registers::{
    all_cell_values, all_held, all_registers_linked, all_values, AssignedRegisters, RegisterCells,
};
use crate::assembler::semantics::Registers;
use crate::chips::bridge::{all_linked, lemma_hold};
use crate::chips::poseidon_boundary::chip::{PoseidonBoundaryChip, PoseidonBoundaryConfig};
use crate::chips::poseidon_boundary::commit::{all_have, cell_fields, env_fields};
use crate::chips::poseidon_boundary::descriptor::{Boundary, BoundaryDescriptor};
use crate::chips::poseidon_boundary::hash::residues;
use crate::chips::poseidon_boundary::identity::values_of;
use crate::chips::reduce::{cell_raws, raws};
use crate::field::{lemma_centered_of, modulus, Fr};
use crate::field_convert::i64_to_fr;
use crate::fixed_point::lemma_i18_range;
use crate::layout::{cells_of, AssignedCell, Cell, Laid, Layouter, Mark, SynthesisError};
use crate::plonk::{Assignment, ConstraintSystem, Setup};
use crate::program_circuit::circuit::raw_tensor;
use crate::program_circuit::params::{boundaries, indexed_boundaries, weight_rows};
use crate::program_circuit::public::{
    binding, boundary_publics, flatten, flatten_cells, input_publics, lemma_cell_fields, lemma_env_fields,
    lemma_flatten, output_publics, push_cells,
};

verus! {

pub struct AssemblerCircuitConfig {
    pub assembler: AssemblerChip,
    pub poseidon: PoseidonBoundaryConfig,
}

impl AssemblerCircuitConfig {
    pub open spec fn wf(self) -> bool {
        self.assembler.config.wf() && self.assembler.config.public_instance is Some
    }

    pub open spec fn distinct(self) -> bool {
        self.assembler.config.distinct() && self.poseidon.distinct()
    }

    pub open spec fn rules(self, setup: Setup) -> bool {
        self.assembler.config.rules(setup) && self.poseidon.ok(setup)
    }

    /// Every lookup table is loaded.
    pub open spec fn loaded(self, setup: Setup) -> bool {
        self.assembler.config.loaded(setup)
    }

    pub open spec fn ok(self, setup: Setup) -> bool {
        self.assembler.config.ok(setup) && self.poseidon.ok(setup)
    }

    /// Rows that a lookup is off at satisfy it.
    pub open spec fn rests(self, setup: Setup) -> bool {
        self.assembler.config.rests(setup)
    }

    pub proof fn lemma_rests(self, setup: Setup)
        requires
            self.ok(setup),
        ensures
            self.rests(setup),
    {
        self.assembler.config.lemma_rests(setup);
    }

    /// The configuration's rules are those that `top` has and `base` has not. Once the tables
    /// are loaded, each of them holds at every row where it is off.
    pub open spec fn adds(self, base: ConstraintSystem, top: ConstraintSystem) -> bool {
        &&& top.extends(base)
        &&& forall|setup: Setup| setup.cs.extends(top) ==> #[trigger] self.rules(setup)
        &&& forall|setup: Setup|
            setup.cs.extends(top) && #[trigger] self.loaded(setup) ==> setup.rests_between(
                base,
                top,
            )
    }
}

/// The cells hold the values, whatever satisfies the layout has in them what `want` says of the
/// registers' cells, and the recorded values satisfy the layout.
pub open spec fn cells_laid(
    config: AssemblerCircuitConfig,
    regs: AssignedRegisters,
    before: Layouter,
    after: Layouter,
    cells: Seq<AssignedCell>,
    want: spec_fn(Registers) -> Seq<int>,
) -> bool {
    &&& after.grows(before)
    &&& all_have(after, cells)
    &&& cell_fields(cells) == want(regs.values())
    &&& forall|setup: Setup, env: Assignment|
        config.ok(setup) && #[trigger] after.sat(setup, env) ==> env_fields(env, cells) == want(
            regs.cell_values(env),
        )
    &&& forall|setup: Setup| #[trigger] config.rules(setup) ==> all_linked(setup, cells)
    &&& forall|setup: Setup|
        config.ok(setup) && config.distinct() && before.honest(setup)
            ==> #[trigger] after.honest(setup)
}

/// Cells after cells.
pub(crate) proof fn lemma_cells_laid(
    config: AssemblerCircuitConfig,
    regs: AssignedRegisters,
    base: Layouter,
    mid: Layouter,
    l: Layouter,
    xs: Seq<AssignedCell>,
    ys: Seq<AssignedCell>,
    f: spec_fn(Registers) -> Seq<int>,
    g: spec_fn(Registers) -> Seq<int>,
)
    requires
        cells_laid(config, regs, base, mid, xs, f),
        cells_laid(config, regs, mid, l, ys, g),
    ensures
        cells_laid(config, regs, base, l, xs + ys, |r: Registers| f(r) + g(r)),
{
    let h = |r: Registers| f(r) + g(r);
    let cells = xs + ys;
    lemma_hold(l, mid, xs);
    assert forall|i: int| 0 <= i < cells.len() implies l.has(#[trigger] cells[i]) by {
        if i < xs.len() {
            assert(cells[i] == xs[i]);
        } else {
            assert(cells[i] == ys[i - xs.len()]);
        }
    }
    assert(cell_fields(cells) =~= cell_fields(xs) + cell_fields(ys));
    assert forall|setup: Setup, env: Assignment|
        config.ok(setup) && #[trigger] l.sat(setup, env) implies env_fields(env, cells) == h(
        regs.cell_values(env),
    ) by {
        assert(mid.sat(setup, env));
        assert(env_fields(env, cells) =~= env_fields(env, xs) + env_fields(env, ys));
    }
    assert forall|setup: Setup| #[trigger] config.rules(setup) implies all_linked(setup, cells) by {
        assert forall|i: int| 0 <= i < cells.len() implies setup.cs.linked(
            (#[trigger] cells[i]).cell.column,
        ) by {
            if i < xs.len() {
                assert(cells[i] == xs[i]);
            } else {
                assert(cells[i] == ys[i - xs.len()]);
            }
        }
    }
    assert forall|setup: Setup|
        config.ok(setup) && config.distinct() && base.honest(
            setup,
        ) implies #[trigger] l.honest(setup) by {
        assert(mid.honest(setup));
    }
}

/// Two ways to say what cells hold.
pub(crate) proof fn lemma_cells_want(
    config: AssemblerCircuitConfig,
    regs: AssignedRegisters,
    base: Layouter,
    l: Layouter,
    cells: Seq<AssignedCell>,
    f: spec_fn(Registers) -> Seq<int>,
    g: spec_fn(Registers) -> Seq<int>,
)
    requires
        cells_laid(config, regs, base, l, cells, f),
        f(regs.values()) == g(regs.values()),
        forall|env: Assignment|
            f(#[trigger] regs.cell_values(env)) == g(regs.cell_values(env)),
    ensures
        cells_laid(config, regs, base, l, cells, g),
{
}

/// No cells.
pub(crate) proof fn lemma_no_cells(config: AssemblerCircuitConfig, regs: AssignedRegisters, l: Layouter)
    ensures
        cells_laid(config, regs, l, l, Seq::empty(), |r: Registers| Seq::<int>::empty()),
{
    assert(cell_fields(Seq::<AssignedCell>::empty()) =~= Seq::<int>::empty());
    assert forall|env: Assignment| #[trigger] env_fields(env, Seq::<AssignedCell>::empty())
        == Seq::<int>::empty() by {
        assert(env_fields(env, Seq::<AssignedCell>::empty()) =~= Seq::<int>::empty());
    }
}

impl PoseidonBoundaryConfig {
    /// The layout after the public cells of a boundary, with these cells.
    pub closed spec fn boundary_laid(self, t: Seq<Mark>, b: Boundary, cells: Seq<Cell>) -> Laid {
        let first = self.constant_trace(t, binding(b)[0]);
        let second = self.constant_trace(first, binding(b)[1]);
        let last = self.commitment_laid(second, b, cells);
        Laid {
            trace: last.trace,
            cells: seq![self.next_cell(t), self.next_cell(first), last.cells[0]],
        }
    }

    /// The layout after the public cells of the first `n` input boundaries, with these cells.
    pub closed spec fn inputs_laid(
        self,
        t: Seq<Mark>,
        bs: Seq<Boundary>,
        places: Seq<Seq<Cell>>,
        n: int,
    ) -> Laid
        decreases n,
    {
        if n <= 0 {
            Laid { trace: t, cells: Seq::empty() }
        } else {
            let before = self.inputs_laid(t, bs, places, n - 1);
            let one = self.boundary_laid(before.trace, bs[n - 1], places[n - 1]);
            Laid { trace: one.trace, cells: before.cells + one.cells }
        }
    }

    /// The layout after the public cells of the first `n` output boundaries, with these cells.
    pub closed spec fn outputs_laid(
        self,
        t: Seq<Mark>,
        bs: Seq<(usize, Boundary)>,
        places: Seq<Seq<Cell>>,
        n: int,
    ) -> Laid
        decreases n,
    {
        if n <= 0 {
            Laid { trace: t, cells: Seq::empty() }
        } else {
            let before = self.outputs_laid(t, bs, places, n - 1);
            let one = self.boundary_laid(
                before.trace,
                bs[n - 1].1,
                places[bs[n - 1].0 as int],
            );
            Laid { trace: one.trace, cells: before.cells + one.cells }
        }
    }

    /// The layout after the first `n` cells are fixed to values.
    pub closed spec fn tensor_trace(
        self,
        t: Seq<Mark>,
        cells: Seq<Cell>,
        values: Seq<i64>,
        n: int,
    ) -> Seq<Mark>
        decreases n,
    {
        if n <= 0 {
            t
        } else {
            self.fixed_trace(
                self.tensor_trace(t, cells, values, n - 1),
                cells[n - 1],
                values[n - 1] as int % modulus(),
            )
        }
    }

    /// The layout after the first `n` weights are fixed.
    pub closed spec fn weights_trace(
        self,
        t: Seq<Mark>,
        places: Seq<Seq<Cell>>,
        weights: Seq<Seq<i64>>,
        n: int,
    ) -> Seq<Mark>
        decreases n,
    {
        if n <= 0 {
            t
        } else {
            self.tensor_trace(
                self.weights_trace(t, places, weights, n - 1),
                places[n - 1],
                weights[n - 1],
                weights[n - 1].len() as int,
            )
        }
    }

    /// The layout after `n` public values of a leaf, with their cells.
    pub closed spec fn leaf_laid(self, t: Seq<Mark>, n: int) -> Laid
        decreases n,
    {
        if n <= 0 {
            Laid { trace: t, cells: Seq::empty() }
        } else {
            let before = self.leaf_laid(t, n - 1);
            Laid {
                trace: self.public_trace(before.trace),
                cells: before.cells.push(self.next_cell(before.trace)),
            }
        }
    }
}

/// A cell that is constrained to a constant.
pub(crate) fn constant_cell(
    config: &AssemblerCircuitConfig,
    layouter: &mut Layouter,
    regs: &AssignedRegisters,
    value: Fr,
) -> (c: AssignedCell)
    ensures
        final(layouter).trace() == config.poseidon.constant_trace(
            old(layouter).trace(),
            value@,
        ),
        c.cell == config.poseidon.next_cell(old(layouter).trace()),
        cells_laid(
            *config,
            *regs,
            *old(layouter),
            *final(layouter),
            seq![c],
            |r: Registers| seq![value@],
        ),
{
    let ghost base = *layouter;
    let c = PoseidonBoundaryChip::construct(config.poseidon).assign_constant(layouter, value);
    proof {
        let cells = seq![c];
        assert(cell_fields(cells) =~= seq![value@]);
        assert forall|setup: Setup, env: Assignment|
            config.ok(setup) && #[trigger] layouter.sat(setup, env) implies env_fields(env, cells)
            == seq![value@] by {
            assert(env_fields(env, cells) =~= seq![value@]);
        }
    }
    c
}

/// The public cells of a boundary.
pub(crate) fn boundary_cells(
    config: &AssemblerCircuitConfig,
    layouter: &mut Layouter,
    regs: &AssignedRegisters,
    descriptor: &BoundaryDescriptor,
    tensor: &RegisterCells,
) -> (cells: Vec<AssignedCell>)
    requires
        descriptor@.error() is None,
        tensor.cells@.len() == descriptor@.element_count,
        tensor.held(*old(layouter)),
        forall|setup: Setup| #[trigger]
            config.rules(setup) ==> all_linked(setup, tensor.cells@),
    ensures
        final(layouter).grows(*old(layouter)),
        (Laid { trace: final(layouter).trace(), cells: cells_of(cells@) })
            == config.poseidon.boundary_laid(
            old(layouter).trace(),
            descriptor@,
            cells_of(tensor.cells@),
        ),
        all_have(*final(layouter), cells@),
        cell_fields(cells@) == boundary_publics(descriptor@, raws(tensor.values@)),
        forall|setup: Setup, env: Assignment|
            config.ok(setup) && #[trigger] final(layouter).sat(setup, env) ==> env_fields(
                env,
                cells@,
            ) == boundary_publics(descriptor@, cell_raws(env, tensor.cells@)),
        forall|setup: Setup| #[trigger] config.rules(setup) ==> all_linked(setup, cells@),
        forall|setup: Setup|
            config.ok(setup) && config.distinct() && old(layouter).honest(setup)
                ==> #[trigger] final(layouter).honest(setup),
{
    let ghost base = *layouter;
    let poseidon = PoseidonBoundaryChip::construct(config.poseidon);
    let pair = descriptor.public_binding_fields();
    proof {
        assert(values_of(pair@)[0] == pair@[0]@ && values_of(pair@)[1] == pair@[1]@);
        assert(values_of(pair@).len() == 2);
    }
    let c0 = poseidon.assign_constant(layouter, pair[0]);
    let ghost l1 = *layouter;
    let c1 = poseidon.assign_constant(layouter, pair[1]);
    let ghost l2 = *layouter;
    proof {
        lemma_hold(l1, base, tensor.cells@);
        lemma_hold(l2, l1, tensor.cells@);
        lemma_cell_fields(base, *tensor);
    }
    let c2 = match poseidon.commit_assigned(layouter, descriptor, &tensor.cells) {
        Ok(c) => c,
        Err(_) => {
            assert(false);
            c0
        },
    };
    let ghost l3 = *layouter;
    let mut cells: Vec<AssignedCell> = Vec::new();
    cells.push(c0);
    cells.push(c1);
    cells.push(c2);
    proof {
        assert(cells_of(cells@) =~= seq![c0.cell, c1.cell, c2.cell]);
        lemma_hold(l2, l1, seq![c0]);
        assert(l2.has(seq![c0][0]));
        lemma_hold(l3, l2, seq![c0, c1]);
        assert(l3.has(seq![c0, c1][0]) && l3.has(seq![c0, c1][1]));
        assert(cell_fields(cells@) =~= boundary_publics(descriptor@, raws(tensor.values@)));
        assert forall|setup: Setup, env: Assignment|
            config.ok(setup) && #[trigger] l3.sat(setup, env) implies env_fields(env, cells@)
            == boundary_publics(descriptor@, cell_raws(env, tensor.cells@)) by {
            assert(l2.sat(setup, env));
            assert(l1.sat(setup, env));
            lemma_env_fields(env, tensor.cells@);
            assert(env_fields(env, cells@) =~= boundary_publics(
                descriptor@,
                cell_raws(env, tensor.cells@),
            ));
        }
        assert forall|setup: Setup|
            config.ok(setup) && config.distinct() && base.honest(
                setup,
            ) implies #[trigger] l3.honest(setup) by {
            assert(config.rules(setup));
            assert(l1.honest(setup));
            assert(l2.honest(setup));
        }
    }
    cells
}

/// The cells of registers that the assembler laid out.
pub(crate) proof fn lemma_register_cells(
    config: AssemblerCircuitConfig,
    regs: AssignedRegisters,
    l: Layouter,
    list: Seq<RegisterCells>,
    pick: spec_fn(Registers) -> Seq<Seq<int>>,
)
    requires
        all_held(l, list),
        all_values(list) == pick(regs.values()),
        forall|env: Assignment|
            #![trigger regs.cell_values(env)]
            all_cell_values(env, list) == pick(regs.cell_values(env)),
        forall|setup: Setup| #[trigger] config.rules(setup) ==> all_registers_linked(setup, list),
    ensures
        cells_laid(
            config,
            regs,
            l,
            l,
            flatten_cells(list),
            |r: Registers| residues(flatten(pick(r))),
        ),
{
    lemma_flatten(l, list);
    assert forall|setup: Setup| #[trigger] config.rules(setup) implies all_linked(
        setup,
        flatten_cells(list),
    ) by {
        lemma_flatten_linked(setup, list);
    }
    assert forall|env: Assignment| #[trigger] env_fields(env, flatten_cells(list)) == residues(
        flatten(pick(regs.cell_values(env))),
    ) by {}
}

proof fn lemma_flatten_linked(setup: Setup, list: Seq<RegisterCells>)
    requires
        all_registers_linked(setup, list),
    ensures
        all_linked(setup, flatten_cells(list)),
    decreases list.len(),
{
    if list.len() > 0 {
        let rest = list.drop_last();
        assert forall|i: int| 0 <= i < rest.len() implies all_linked(
            setup,
            (#[trigger] rest[i]).cells@,
        ) by {
            assert(rest[i] == list[i]);
        }
        lemma_flatten_linked(setup, rest);
        let last = list[list.len() - 1];
        assert(all_linked(setup, last.cells@));
        let n = flatten_cells(rest).len();
        assert forall|i: int| 0 <= i < flatten_cells(list).len() implies setup.cs.linked(
            (#[trigger] flatten_cells(list)[i]).cell.column,
        ) by {
            if i < n {
                assert(flatten_cells(list)[i] == flatten_cells(rest)[i]);
            } else {
                assert(flatten_cells(list)[i] == last.cells@[i - n]);
            }
        }
    }
}

/// Registers are held by every later record.
pub(crate) proof fn lemma_registers_held(regs: AssignedRegisters, l: Layouter, base: Layouter)
    requires
        l.grows(base),
        regs.held(base),
    ensures
        regs.held(l),
{
    lemma_all_held(l, base, regs.inputs@);
    lemma_all_held(l, base, regs.weights@);
    lemma_all_held(l, base, regs.virtuals@);
}

/// The registers are held, and linked where the configuration's rules hold.
pub open spec fn usable(config: AssemblerCircuitConfig, regs: AssignedRegisters, l: Layouter) -> bool {
    &&& regs.held(l)
    &&& forall|setup: Setup| #[trigger] config.rules(setup) ==> regs.linked(setup)
}

/// The public cells of the input boundaries.
pub(crate) fn input_cells(
    config: &AssemblerCircuitConfig,
    layouter: &mut Layouter,
    regs: &AssignedRegisters,
    descriptors: &Vec<BoundaryDescriptor>,
) -> (cells: Vec<AssignedCell>)
    requires
        usable(*config, *regs, *old(layouter)),
        descriptors@.len() == regs.inputs@.len(),
        forall|i: int|
            0 <= i < descriptors@.len() ==> (#[trigger] descriptors@[i])@.error() is None
                && descriptors@[i]@.element_count == regs.inputs@[i].cells@.len(),
    ensures
        (Laid { trace: final(layouter).trace(), cells: cells_of(cells@) })
            == config.poseidon.inputs_laid(
            old(layouter).trace(),
            boundaries(descriptors@),
            regs.places().inputs,
            descriptors@.len() as int,
        ),
        cells_laid(
            *config,
            *regs,
            *old(layouter),
            *final(layouter),
            cells@,
            |r: Registers| input_publics(boundaries(descriptors@), r.inputs),
        ),
{
    let ghost base = *layouter;
    let ghost bs = boundaries(descriptors@);
    let mut cells: Vec<AssignedCell> = Vec::new();
    let mut i: usize = 0;
    proof {
        lemma_no_cells(*config, *regs, base);
        assert(bs.take(0) =~= Seq::empty());
        lemma_cells_want(
            *config,
            *regs,
            base,
            base,
            Seq::empty(),
            |r: Registers| Seq::<int>::empty(),
            |r: Registers| input_publics(bs.take(0), r.inputs),
        );
        assert(cells@ =~= Seq::empty());
        assert(cells_of(cells@) =~= Seq::<Cell>::empty());
    }
    while i < descriptors.len()
        invariant
            i <= descriptors@.len(),
            bs == boundaries(descriptors@),
            usable(*config, *regs, *layouter),
            descriptors@.len() == regs.inputs@.len(),
            forall|i: int|
                0 <= i < descriptors@.len() ==> (#[trigger] descriptors@[i])@.error() is None
                    && descriptors@[i]@.element_count == regs.inputs@[i].cells@.len(),
            (Laid { trace: layouter.trace(), cells: cells_of(cells@) })
                == config.poseidon.inputs_laid(base.trace(), bs, regs.places().inputs, i as int),
            cells_laid(
                *config,
                *regs,
                base,
                *layouter,
                cells@,
                |r: Registers| input_publics(bs.take(i as int), r.inputs),
            ),
        decreases descriptors@.len() - i,
    {
        let ghost before = *layouter;
        let ghost prev = cells@;
        let ghost tensor = regs.inputs@[i as int];
        let ghost b = bs[i as int];
        proof {
            assert(descriptors@[i as int]@.error() is None);
            assert(tensor.held(before));
            assert forall|setup: Setup| #[trigger] config.rules(setup) implies all_linked(
                setup,
                tensor.cells@,
            ) by {
                assert(regs.linked(setup));
            }
        }
        let more = boundary_cells(config, layouter, regs, &descriptors[i], &regs.inputs[i]);
        push_cells(&mut cells, &more);
        assert(cells_of(cells@) =~= cells_of(prev) + cells_of(more@));
        proof {
            let f = |r: Registers| input_publics(bs.take(i as int), r.inputs);
            let g = |r: Registers| boundary_publics(b, r.inputs[i as int]);
            let h = |r: Registers| input_publics(bs.take(i + 1), r.inputs);
            lemma_registers_held(*regs, *layouter, before);
            assert(regs.values().inputs[i as int] == raws(tensor.values@));
            assert forall|setup: Setup, env: Assignment|
                config.ok(setup) && #[trigger] layouter.sat(setup, env) implies env_fields(
                env,
                more@,
            ) == g(regs.cell_values(env)) by {
                assert(regs.cell_values(env).inputs[i as int] == cell_raws(env, tensor.cells@));
            }
            assert(cells_laid(*config, *regs, before, *layouter, more@, g));
            lemma_cells_laid(*config, *regs, base, before, *layouter, prev, more@, f, g);
            assert forall|r: Registers| #[trigger] h(r) == f(r) + g(r) by {
                let next = bs.take(i + 1);
                assert(next.drop_last() =~= bs.take(i as int));
                assert(next[next.len() - 1] == b);
            }
            lemma_cells_want(
                *config,
                *regs,
                base,
                *layouter,
                cells@,
                |r: Registers| f(r) + g(r),
                h,
            );
        }
        i += 1;
    }
    proof {
        assert(bs.take(i as int) =~= bs);
    }
    cells
}

/// The outputs have the lengths that their boundaries say.
pub open spec fn outputs_fit(bs: Seq<(usize, Boundary)>, outputs: Seq<Seq<int>>) -> bool {
    forall|i: int|
        0 <= i < bs.len() ==> outputs[(#[trigger] bs[i]).0 as int].len() == bs[i].1.element_count
}

/// The public cells of the output boundaries, unless an output has another length than its
/// boundary says.
pub(crate) fn output_cells(
    config: &AssemblerCircuitConfig,
    layouter: &mut Layouter,
    regs: &AssignedRegisters,
    descriptors: &Vec<(usize, BoundaryDescriptor)>,
) -> (res: Result<Vec<AssignedCell>, SynthesisError>)
    requires
        usable(*config, *regs, *old(layouter)),
        forall|i: int|
            0 <= i < descriptors@.len() ==> (#[trigger] descriptors@[i]).1@.error() is None
                && descriptors@[i].0 < regs.virtuals@.len(),
    ensures
        res is Ok <==> outputs_fit(indexed_boundaries(descriptors@), regs.values().virtuals),
        res matches Ok(cells) ==> (Laid {
            trace: final(layouter).trace(),
            cells: cells_of(cells@),
        }) == config.poseidon.outputs_laid(
            old(layouter).trace(),
            indexed_boundaries(descriptors@),
            regs.places().virtuals,
            descriptors@.len() as int,
        ),
        res matches Ok(cells) ==> cells_laid(
            *config,
            *regs,
            *old(layouter),
            *final(layouter),
            cells@,
            |r: Registers| output_publics(indexed_boundaries(descriptors@), r.virtuals),
        ),
{
    let ghost base = *layouter;
    let ghost bs = indexed_boundaries(descriptors@);
    let mut cells: Vec<AssignedCell> = Vec::new();
    let mut i: usize = 0;
    proof {
        lemma_no_cells(*config, *regs, base);
        assert(bs.take(0) =~= Seq::empty());
        lemma_cells_want(
            *config,
            *regs,
            base,
            base,
            Seq::empty(),
            |r: Registers| Seq::<int>::empty(),
            |r: Registers| output_publics(bs.take(0), r.virtuals),
        );
        assert(cells@ =~= Seq::empty());
        assert(cells_of(cells@) =~= Seq::<Cell>::empty());
    }
    while i < descriptors.len()
        invariant
            i <= descriptors@.len(),
            bs == indexed_boundaries(descriptors@),
            usable(*config, *regs, *layouter),
            forall|i: int|
                0 <= i < descriptors@.len() ==> (#[trigger] descriptors@[i]).1@.error() is None
                    && descriptors@[i].0 < regs.virtuals@.len(),
            forall|j: int|
                0 <= j < i ==> regs.values().virtuals[(#[trigger] bs[j]).0 as int].len()
                    == bs[j].1.element_count,
            (Laid { trace: layouter.trace(), cells: cells_of(cells@) })
                == config.poseidon.outputs_laid(base.trace(), bs, regs.places().virtuals, i as int),
            cells_laid(
                *config,
                *regs,
                base,
                *layouter,
                cells@,
                |r: Registers| output_publics(bs.take(i as int), r.virtuals),
            ),
        decreases descriptors@.len() - i,
    {
        let ghost before = *layouter;
        let ghost prev = cells@;
        let index: usize = descriptors[i].0;
        assert(descriptors@[i as int].1@.error() is None);
        let ghost tensor = regs.virtuals@[index as int];
        let ghost b = bs[i as int].1;
        proof {
            assert(tensor.held(before));
            assert(regs.values().virtuals[index as int] == raws(tensor.values@));
            assert forall|setup: Setup| #[trigger] config.rules(setup) implies all_linked(
                setup,
                tensor.cells@,
            ) by {
                assert(regs.linked(setup));
            }
        }
        if regs.virtuals[index].cells.len() != descriptors[i].1.element_count() {
            assert(regs.values().virtuals[bs[i as int].0 as int].len() != b.element_count);
            return Err(SynthesisError);
        }
        let more = boundary_cells(config, layouter, regs, &descriptors[i].1, &regs.virtuals[index]);
        push_cells(&mut cells, &more);
        assert(cells_of(cells@) =~= cells_of(prev) + cells_of(more@));
        proof {
            let f = |r: Registers| output_publics(bs.take(i as int), r.virtuals);
            let g = |r: Registers| boundary_publics(b, r.virtuals[index as int]);
            let h = |r: Registers| output_publics(bs.take(i + 1), r.virtuals);
            lemma_registers_held(*regs, *layouter, before);
            assert forall|setup: Setup, env: Assignment|
                config.ok(setup) && #[trigger] layouter.sat(setup, env) implies env_fields(
                env,
                more@,
            ) == g(regs.cell_values(env)) by {
                assert(regs.cell_values(env).virtuals[index as int] == cell_raws(
                    env,
                    tensor.cells@,
                ));
            }
            assert(cells_laid(*config, *regs, before, *layouter, more@, g));
            lemma_cells_laid(*config, *regs, base, before, *layouter, prev, more@, f, g);
            assert forall|r: Registers| #[trigger] h(r) == f(r) + g(r) by {
                let next = bs.take(i + 1);
                assert(next.drop_last() =~= bs.take(i as int));
                assert(next.last() == bs[i as int]);
            }
            lemma_cells_want(
                *config,
                *regs,
                base,
                *layouter,
                cells@,
                |r: Registers| f(r) + g(r),
                h,
            );
        }
        i += 1;
    }
    proof {
        assert(bs.take(i as int) =~= bs);
    }
    Ok(cells)
}

/// Fixes a tensor's cells to the tensor's values.
fn fix_tensor(
    config: &AssemblerCircuitConfig,
    layouter: &mut Layouter,
    tensor: &RegisterCells,
    fixed: &Vec<i64>,
)
    requires
        tensor.held(*old(layouter)),
        fixed@ == raw_tensor(tensor.values@),
        forall|setup: Setup| #[trigger]
            config.rules(setup) ==> all_linked(setup, tensor.cells@),
    ensures
        final(layouter).grows(*old(layouter)),
        final(layouter).trace() == config.poseidon.tensor_trace(
            old(layouter).trace(),
            cells_of(tensor.cells@),
            fixed@,
            fixed@.len() as int,
        ),
        forall|setup: Setup, env: Assignment| #[trigger]
            final(layouter).sat(setup, env) ==> cell_raws(env, tensor.cells@) == raws(
                tensor.values@,
            ),
        forall|setup: Setup|
            config.ok(setup) && config.distinct() && old(layouter).honest(setup)
                ==> #[trigger] final(layouter).honest(setup),
{
    let ghost base = *layouter;
    let poseidon = PoseidonBoundaryChip::construct(config.poseidon);
    let mut i: usize = 0;
    while i < fixed.len()
        invariant
            i <= fixed@.len(),
            poseidon.config == config.poseidon,
            fixed@ == raw_tensor(tensor.values@),
            tensor.held(base),
            layouter.grows(base),
            layouter.trace() == config.poseidon.tensor_trace(
                base.trace(),
                cells_of(tensor.cells@),
                fixed@,
                i as int,
            ),
            forall|setup: Setup| #[trigger]
                config.rules(setup) ==> all_linked(setup, tensor.cells@),
            forall|setup: Setup, env: Assignment, j: int|
                #![trigger layouter.sat(setup, env), tensor.cells@[j]]
                layouter.sat(setup, env) && 0 <= j < i ==> env.cell(tensor.cells@[j].cell)
                    == tensor.values@[j]@ % modulus(),
            forall|setup: Setup|
                config.ok(setup) && config.distinct() && base.honest(setup)
                    ==> #[trigger] layouter.honest(setup),
        decreases fixed@.len() - i,
    {
        let ghost before = *layouter;
        let ghost c = tensor.cells@[i as int];
        proof {
            lemma_i18_range(tensor.values@[i as int]);
            assert(base.has(c));
            assert forall|env: Assignment| #[trigger] before.agrees(env) implies env.cell(c.cell)
                == c.value@ by {
                assert(base.agrees(env));
            }
        }
        poseidon.constrain_equal_to_constant(layouter, &tensor.cells[i], i64_to_fr(fixed[i]));
        proof {
            assert forall|setup: Setup, env: Assignment, j: int|
                #![trigger layouter.sat(setup, env), tensor.cells@[j]]
                layouter.sat(setup, env) && 0 <= j < i + 1 implies env.cell(tensor.cells@[j].cell)
                == tensor.values@[j]@ % modulus() by {
                assert(before.sat(setup, env));
            }
            assert forall|setup: Setup|
                config.ok(setup) && config.distinct() && base.honest(
                    setup,
                ) implies #[trigger] layouter.honest(setup) by {
                assert(before.honest(setup));
                assert(config.rules(setup));
                assert(setup.cs.linked(c.cell.column));
            }
        }
        i += 1;
    }
    proof {
        let l = *layouter;
        assert forall|setup: Setup, env: Assignment| #[trigger] l.sat(setup, env) implies cell_raws(
            env,
            tensor.cells@,
        ) == raws(tensor.values@) by {
            assert forall|j: int| 0 <= j < tensor.cells@.len() implies #[trigger] cell_raws(
                env,
                tensor.cells@,
            )[j] == raws(tensor.values@)[j] by {
                assert(env.cell(tensor.cells@[j].cell) == tensor.values@[j]@ % modulus());
                lemma_i18_range(tensor.values@[j]);
                lemma_centered_of(tensor.values@[j]@);
            }
            assert(cell_raws(env, tensor.cells@) =~= raws(tensor.values@));
        }
    }
}

/// Fixes the weights' cells to the weights.
pub(crate) fn fix_weights(
    config: &AssemblerCircuitConfig,
    layouter: &mut Layouter,
    regs: &AssignedRegisters,
    fixed: &Vec<Vec<i64>>,
)
    requires
        usable(*config, *regs, *old(layouter)),
        fixed@.len() == regs.weights@.len(),
        forall|i: int|
            0 <= i < fixed@.len() ==> (#[trigger] fixed@[i])@ == raw_tensor(
                regs.weights@[i].values@,
            ),
    ensures
        final(layouter).grows(*old(layouter)),
        final(layouter).trace() == config.poseidon.weights_trace(
            old(layouter).trace(),
            regs.places().weights,
            weight_rows(fixed@),
            fixed@.len() as int,
        ),
        usable(*config, *regs, *final(layouter)),
        forall|setup: Setup, env: Assignment| #[trigger]
            final(layouter).sat(setup, env) ==> all_cell_values(env, regs.weights@) == all_values(
                regs.weights@,
            ),
        forall|setup: Setup|
            config.ok(setup) && config.distinct() && old(layouter).honest(setup)
                ==> #[trigger] final(layouter).honest(setup),
{
    let ghost base = *layouter;
    let mut i: usize = 0;
    while i < fixed.len()
        invariant
            i <= fixed@.len(),
            usable(*config, *regs, *layouter),
            fixed@.len() == regs.weights@.len(),
            forall|i: int|
                0 <= i < fixed@.len() ==> (#[trigger] fixed@[i])@ == raw_tensor(
                    regs.weights@[i].values@,
                ),
            layouter.grows(base),
            layouter.trace() == config.poseidon.weights_trace(
                base.trace(),
                regs.places().weights,
                weight_rows(fixed@),
                i as int,
            ),
            forall|setup: Setup, env: Assignment, j: int|
                #![trigger layouter.sat(setup, env), regs.weights@[j]]
                layouter.sat(setup, env) && 0 <= j < i ==> cell_raws(env, regs.weights@[j].cells@)
                    == raws(regs.weights@[j].values@),
            forall|setup: Setup|
                config.ok(setup) && config.distinct() && base.honest(setup)
                    ==> #[trigger] layouter.honest(setup),
        decreases fixed@.len() - i,
    {
        let ghost before = *layouter;
        proof {
            assert(regs.weights@[i as int].held(before));
            assert(fixed@[i as int]@ == raw_tensor(regs.weights@[i as int].values@));
            assert forall|setup: Setup| #[trigger] config.rules(setup) implies all_linked(
                setup,
                regs.weights@[i as int].cells@,
            ) by {
                assert(regs.linked(setup));
            }
        }
        fix_tensor(config, layouter, &regs.weights[i], &fixed[i]);
        proof {
            lemma_registers_held(*regs, *layouter, before);
            assert forall|setup: Setup, env: Assignment, j: int|
                #![trigger layouter.sat(setup, env), regs.weights@[j]]
                layouter.sat(setup, env) && 0 <= j < i + 1 implies cell_raws(
                env,
                regs.weights@[j].cells@,
            ) == raws(regs.weights@[j].values@) by {
                assert(before.sat(setup, env));
            }
            assert forall|setup: Setup|
                config.ok(setup) && config.distinct() && base.honest(
                    setup,
                ) implies #[trigger] layouter.honest(setup) by {
                assert(before.honest(setup));
            }
        }
        i += 1;
    }
    proof {
        let l = *layouter;
        assert forall|setup: Setup, env: Assignment| #[trigger]
            l.sat(setup, env) implies all_cell_values(env, regs.weights@) == all_values(
            regs.weights@,
        ) by {
            assert forall|j: int| 0 <= j < regs.weights@.len() implies #[trigger] all_cell_values(
                env,
                regs.weights@,
            )[j] == all_values(regs.weights@)[j] by {
                assert(cell_raws(env, regs.weights@[j].cells@) == raws(regs.weights@[j].values@));
            }
            assert(all_cell_values(env, regs.weights@) =~= all_values(regs.weights@));
        }
    }
}

/// Cells for a leaf's public values.
pub(crate) fn leaf_cells(config: &AssemblerCircuitConfig, layouter: &mut Layouter, leaf: &Vec<Fr>) -> (cells: Vec<
    AssignedCell,
>)
    ensures
        final(layouter).grows(*old(layouter)),
        (Laid { trace: final(layouter).trace(), cells: cells_of(cells@) })
            == config.poseidon.leaf_laid(old(layouter).trace(), leaf@.len() as int),
        cells@.len() == leaf@.len(),
        all_have(*final(layouter), cells@),
        cell_fields(cells@) == values_of(leaf@),
        forall|setup: Setup| #[trigger] config.rules(setup) ==> all_linked(setup, cells@),
        forall|setup: Setup|
            config.ok(setup) && config.distinct() && old(layouter).honest(setup)
                ==> #[trigger] final(layouter).honest(setup),
{
    let ghost base = *layouter;
    let poseidon = PoseidonBoundaryChip::construct(config.poseidon);
    let mut cells: Vec<AssignedCell> = Vec::new();
    assert(cells_of(cells@) =~= Seq::<Cell>::empty());
    let mut i: usize = 0;
    while i < leaf.len()
        invariant
            i <= leaf@.len(),
            poseidon.config == config.poseidon,
            layouter.grows(base),
            (Laid { trace: layouter.trace(), cells: cells_of(cells@) })
                == config.poseidon.leaf_laid(base.trace(), i as int),
            cells@.len() == i,
            all_have(*layouter, cells@),
            forall|j: int|
                0 <= j < i ==> (#[trigger] cells@[j]).value@ == leaf@[j]@ && cells@[j].cell.column
                    == config.poseidon.state@[0],
            forall|setup: Setup|
                config.ok(setup) && config.distinct() && base.honest(setup)
                    ==> #[trigger] layouter.honest(setup),
        decreases leaf@.len() - i,
    {
        let ghost before = *layouter;
        let ghost prev = cells@;
        let c = poseidon.assign_public_value(layouter, leaf[i]);
        proof {
            lemma_hold(*layouter, before, prev);
        }
        cells.push(c);
        assert(cells_of(cells@) =~= cells_of(prev).push(c.cell));
        proof {
            assert forall|j: int| 0 <= j < cells@.len() implies layouter.has(
                #[trigger] cells@[j],
            ) by {
                if j < i {
                    assert(cells@[j] == prev[j]);
                }
            }
            assert forall|setup: Setup|
                config.ok(setup) && config.distinct() && base.honest(
                    setup,
                ) implies #[trigger] layouter.honest(setup) by {
                assert(before.honest(setup));
            }
        }
        i += 1;
    }
    proof {
        assert(cell_fields(cells@) =~= values_of(leaf@));
        assert forall|setup: Setup| #[trigger] config.rules(setup) implies all_linked(
            setup,
            cells@,
        ) by {
            assert forall|j: int| 0 <= j < cells@.len() implies setup.cs.linked(
                (#[trigger] cells@[j]).cell.column,
            ) by {}
        }
    }
    cells
}

} // verus!
