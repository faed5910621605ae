//! The commitment to a tensor's cells.
use vstd::prelude::*;

use crate::chips::bridge::{all_linked, lemma_hold};
use crate::chips::poseidon_boundary::chip::{PoseidonBoundaryChip, PoseidonBoundaryConfig};
use crate::chips::poseidon_boundary::descriptor::{Boundary, BoundaryDescriptor};
use crate::chips::poseidon_boundary::hash::{
    absorb, commitment, commitment_domain, lemma_absorb_concat, lemma_absorb_push,
};
use crate::chips::poseidon_boundary::identity::{identity_fields, values_of};
use crate::field::Fr;
use crate::layout::{cell_at, cells_of, AssignedCell, Cell, Laid, Layouter, Mark, SynthesisError};
use crate::plonk::{Assignment, Setup};

verus! {

/// The values of cells.
pub open spec fn cell_fields(cells: Seq<AssignedCell>) -> Seq<int> {
    Seq::new(cells.len(), |i: int| cells[i].value@)
}

/// The values that an assignment has in cells.
pub open spec fn env_fields(env: Assignment, cells: Seq<AssignedCell>) -> Seq<int> {
    Seq::new(cells.len(), |i: int| env.cell(cells[i].cell))
}

pub open spec fn all_have(l: Layouter, cells: Seq<AssignedCell>) -> bool {
    forall|i: int| 0 <= i < cells.len() ==> l.has(#[trigger] cells[i])
}

impl PoseidonBoundaryConfig {
    /// The first cell of the first column of states in the next region.
    pub open spec fn next_cell(self, t: Seq<Mark>) -> Cell {
        cell_at(t.len(), self.state@[0], 0)
    }

    /// The layout after a public value.
    pub closed spec fn public_trace(self, t: Seq<Mark>) -> Seq<Mark> {
        t.push(Mark::Region).push(Mark::Advice { cell: self.next_cell(t) })
    }

    /// The layout after a constant.
    pub closed spec fn constant_trace(self, t: Seq<Mark>, value: int) -> Seq<Mark> {
        self.public_trace(t).push(Mark::Constant { cell: self.next_cell(t), value })
    }

    /// The layout after a cell is constrained to a constant.
    pub closed spec fn fixed_trace(self, t: Seq<Mark>, cell: Cell, value: int) -> Seq<Mark> {
        self.constant_trace(t, value).push(Mark::Region).push(
            Mark::Equal { left: cell, right: self.next_cell(t) },
        )
    }

    /// The layout after the first `n` constants are folded into a state, with the state's cell.
    pub closed spec fn constants_laid(
        self,
        t: Seq<Mark>,
        state: Cell,
        values: Seq<int>,
        n: int,
    ) -> Laid
        decreases n,
    {
        if n <= 0 {
            Laid { trace: t, cells: seq![state] }
        } else {
            let before = self.constants_laid(t, state, values, n - 1);
            let constant = self.constant_trace(before.trace, values[n - 1]);
            Laid {
                trace: self.hash_trace(constant, before.cells[0], self.next_cell(before.trace)),
                cells: seq![self.hash_cell(constant)],
            }
        }
    }

    /// The layout after the first `n` cells are folded into a state, with the state's cell.
    pub closed spec fn cells_laid(self, t: Seq<Mark>, state: Cell, cells: Seq<Cell>, n: int) -> Laid
        decreases n,
    {
        if n <= 0 {
            Laid { trace: t, cells: seq![state] }
        } else {
            let before = self.cells_laid(t, state, cells, n - 1);
            Laid {
                trace: self.hash_trace(before.trace, before.cells[0], cells[n - 1]),
                cells: seq![self.hash_cell(before.trace)],
            }
        }
    }

    /// The layout after a commitment to cells, with its cell.
    pub closed spec fn commitment_laid(
        self,
        t: Seq<Mark>,
        boundary: Boundary,
        cells: Seq<Cell>,
    ) -> Laid {
        let fields = boundary.canonical() + seq![cells.len() as int];
        let head = self.constants_laid(
            self.constant_trace(t, commitment_domain()),
            self.next_cell(t),
            fields,
            fields.len() as int,
        );
        self.cells_laid(head.trace, head.cells[0], cells, cells.len() as int)
    }
}

impl PoseidonBoundaryChip {
    /// A cell that is constrained to a constant.
    pub fn assign_constant(&self, layouter: &mut Layouter, value: Fr) -> (c: AssignedCell)
        ensures
            final(layouter).grows(*old(layouter)),
            final(layouter).trace() == self.config.constant_trace(old(layouter).trace(), value@),
            c.is(old(layouter).next(), self.config.state@[0], 0, value@),
            final(layouter).has(c),
            forall|setup: Setup, env: Assignment| #[trigger]
                final(layouter).sat(setup, env) ==> env.cell(c.cell) == value@,
            forall|setup: Setup|
                self.config.ok(setup) && old(layouter).honest(setup) ==> #[trigger] final(layouter).honest(setup),
    {
        let ghost base = *layouter;
        let region: usize = layouter.region();
        let c = layouter.assign_advice(region, self.config.state[0], 0, value);
        layouter.constrain_constant(c.cell, value);
        proof {
            assert forall|setup: Setup|
                self.config.ok(setup) && base.honest(setup) implies #[trigger] layouter.honest(
                setup,
            ) by {
                assert forall|env: Assignment| #[trigger] layouter.agrees(
                    env,
                ) implies layouter.sat(setup, env) by {
                    assert(base.agrees(env));
                }
            }
        }
        c
    }

    /// A cell for a public value, which nothing constrains yet.
    pub fn assign_public_value(&self, layouter: &mut Layouter, value: Fr) -> (c: AssignedCell)
        ensures
            final(layouter).grows(*old(layouter)),
            final(layouter).trace() == self.config.public_trace(old(layouter).trace()),
            c.is(old(layouter).next(), self.config.state@[0], 0, value@),
            final(layouter).has(c),
            forall|setup: Setup|
                old(layouter).honest(setup) ==> #[trigger] final(layouter).honest(setup),
    {
        let ghost base = *layouter;
        let region: usize = layouter.region();
        let c = layouter.assign_advice(region, self.config.state[0], 0, value);
        proof {
            assert forall|setup: Setup| base.honest(setup) implies #[trigger] layouter.honest(
                setup,
            ) by {
                assert forall|env: Assignment| #[trigger] layouter.agrees(
                    env,
                ) implies layouter.sat(setup, env) by {
                    assert(base.agrees(env));
                }
            }
        }
        c
    }

    /// Constrains a cell to a constant.
    pub fn constrain_equal_to_constant(
        &self,
        layouter: &mut Layouter,
        cell: &AssignedCell,
        value: Fr,
    )
        ensures
            final(layouter).grows(*old(layouter)),
            final(layouter).trace() == self.config.fixed_trace(
                old(layouter).trace(),
                cell.cell,
                value@,
            ),
            forall|setup: Setup, env: Assignment| #[trigger]
                final(layouter).sat(setup, env) ==> env.cell(cell.cell) == value@,
            forall|setup: Setup|
                self.config.ok(setup) && setup.cs.linked(cell.cell.column) && cell.value@ == value@
                    && old(layouter).has(*cell) && old(layouter).honest(setup)
                    ==> #[trigger] final(layouter).honest(setup),
    {
        let ghost base = *layouter;
        let constant = self.assign_constant(layouter, value);
        let ghost l1 = *layouter;
        layouter.region();
        layouter.constrain_equal(cell.cell, constant.cell);
        proof {
            let l2 = *layouter;
            assert forall|setup: Setup, env: Assignment| #[trigger]
                l2.sat(setup, env) implies env.cell(cell.cell) == value@ by {
                assert(l1.sat(setup, env));
            }
            assert forall|setup: Setup|
                self.config.ok(setup) && setup.cs.linked(cell.cell.column) && cell.value@ == value@
                    && base.has(*cell) && base.honest(setup) implies #[trigger] l2.honest(setup) by {
                assert(l1.honest(setup));
                assert forall|env: Assignment| #[trigger] l2.agrees(env) implies l2.sat(
                    setup,
                    env,
                ) by {
                    assert(l1.agrees(env));
                    assert(base.agrees(env));
                }
            }
        }
    }

    /// Folds constants into a state.
    fn fold_constants(&self, layouter: &mut Layouter, state: AssignedCell, fields: &Vec<Fr>) -> (c:
        AssignedCell)
        requires
            state.cell.column == self.config.state@[0],
            old(layouter).has(state),
        ensures
            final(layouter).grows(*old(layouter)),
            (Laid { trace: final(layouter).trace(), cells: seq![c.cell] })
                == self.config.constants_laid(
                old(layouter).trace(),
                state.cell,
                values_of(fields@),
                fields@.len() as int,
            ),
            c.cell.column == self.config.state@[0],
            c.value@ == absorb(state.value@, values_of(fields@)),
            final(layouter).has(c),
            forall|setup: Setup, env: Assignment|
                self.config.ok(setup) && #[trigger] final(layouter).sat(setup, env) ==> env.cell(
                    c.cell,
                ) == absorb(env.cell(state.cell), values_of(fields@)),
            forall|setup: Setup|
                self.config.ok(setup) && self.config.distinct() && old(layouter).honest(setup)
                    ==> #[trigger] final(layouter).honest(setup),
    {
        let ghost base = *layouter;
        let ghost values = values_of(fields@);
        let mut c = state;
        let mut i: usize = 0;
        assert(values.take(0) =~= Seq::empty());
        while i < fields.len()
            invariant
                i <= fields@.len(),
                values == values_of(fields@),
                layouter.grows(base),
                (Laid { trace: layouter.trace(), cells: seq![c.cell] })
                    == self.config.constants_laid(base.trace(), state.cell, values, i as int),
                c.cell.column == self.config.state@[0],
                c.value@ == absorb(state.value@, values.take(i as int)),
                layouter.has(c),
                forall|setup: Setup, env: Assignment|
                    self.config.ok(setup) && #[trigger] layouter.sat(setup, env) ==> env.cell(
                        c.cell,
                    ) == absorb(env.cell(state.cell), values.take(i as int)),
                forall|setup: Setup|
                    self.config.ok(setup) && self.config.distinct() && base.honest(setup)
                        ==> #[trigger] layouter.honest(setup),
            decreases fields@.len() - i,
        {
            let ghost before = *layouter;
            let ghost prev = c;
            let ghost taken = values.take(i as int);
            let field = self.assign_constant(layouter, fields[i]);
            let ghost mid = *layouter;
            proof {
                assert forall|env: Assignment| #[trigger] mid.agrees(env) implies env.cell(
                    prev.cell,
                ) == prev.value@ by {
                    assert(before.agrees(env));
                }
            }
            c = self.hash_pair(layouter, &c, &field);
            proof {
                assert(taken.push(values[i as int]) =~= values.take(i + 1));
                lemma_absorb_push(state.value@, taken, values[i as int]);
                assert forall|setup: Setup, env: Assignment|
                    self.config.ok(setup) && #[trigger] layouter.sat(setup, env) implies env.cell(
                    c.cell,
                ) == absorb(env.cell(state.cell), values.take(i + 1)) by {
                    assert(mid.sat(setup, env));
                    assert(before.sat(setup, env));
                    lemma_absorb_push(env.cell(state.cell), taken, values[i as int]);
                }
                assert forall|setup: Setup|
                    self.config.ok(setup) && self.config.distinct() && base.honest(
                        setup,
                    ) implies #[trigger] layouter.honest(setup) by {
                    assert(before.honest(setup));
                    assert(mid.honest(setup));
                }
            }
            i += 1;
        }
        assert(values.take(i as int) =~= values);
        c
    }

    /// Folds cells into a state.
    fn fold_cells(
        &self,
        layouter: &mut Layouter,
        state: AssignedCell,
        cells: &Vec<AssignedCell>,
    ) -> (c: AssignedCell)
        requires
            state.cell.column == self.config.state@[0],
            old(layouter).has(state),
            all_have(*old(layouter), cells@),
        ensures
            final(layouter).grows(*old(layouter)),
            (Laid { trace: final(layouter).trace(), cells: seq![c.cell] })
                == self.config.cells_laid(
                old(layouter).trace(),
                state.cell,
                cells_of(cells@),
                cells@.len() as int,
            ),
            c.cell.column == self.config.state@[0],
            c.value@ == absorb(state.value@, cell_fields(cells@)),
            final(layouter).has(c),
            forall|setup: Setup, env: Assignment|
                self.config.ok(setup) && #[trigger] final(layouter).sat(setup, env) ==> env.cell(
                    c.cell,
                ) == absorb(env.cell(state.cell), env_fields(env, cells@)),
            forall|setup: Setup|
                self.config.ok(setup) && self.config.distinct() && all_linked(setup, cells@) && old(
                    layouter,
                ).honest(setup) ==> #[trigger] final(layouter).honest(setup),
    {
        let ghost base = *layouter;
        let ghost values = cell_fields(cells@);
        let mut c = state;
        let mut i: usize = 0;
        proof {
            assert(values.take(0) =~= Seq::empty());
            assert forall|env: Assignment| (#[trigger] env_fields(env, cells@)).take(0)
                == Seq::<int>::empty() by {
                assert(env_fields(env, cells@).take(0) =~= Seq::empty());
            }
        }
        while i < cells.len()
            invariant
                i <= cells@.len(),
                values == cell_fields(cells@),
                layouter.grows(base),
                (Laid { trace: layouter.trace(), cells: seq![c.cell] }) == self.config.cells_laid(
                    base.trace(),
                    state.cell,
                    cells_of(cells@),
                    i as int,
                ),
                c.cell.column == self.config.state@[0],
                c.value@ == absorb(state.value@, values.take(i as int)),
                layouter.has(c),
                all_have(base, cells@),
                forall|setup: Setup, env: Assignment|
                    self.config.ok(setup) && #[trigger] layouter.sat(setup, env) ==> env.cell(
                        c.cell,
                    ) == absorb(env.cell(state.cell), env_fields(env, cells@).take(i as int)),
                forall|setup: Setup|
                    self.config.ok(setup) && self.config.distinct() && all_linked(setup, cells@)
                        && base.honest(setup) ==> #[trigger] layouter.honest(setup),
            decreases cells@.len() - i,
        {
            let ghost before = *layouter;
            let ghost taken = values.take(i as int);
            let ghost at = cells@[i as int];
            proof {
                assert(base.has(at));
                assert forall|env: Assignment| #[trigger] before.agrees(env) implies env.cell(
                    at.cell,
                ) == at.value@ by {
                    assert(base.agrees(env));
                }
            }
            c = self.hash_pair(layouter, &c, &cells[i]);
            proof {
                assert(taken.push(values[i as int]) =~= values.take(i + 1));
                lemma_absorb_push(state.value@, taken, values[i as int]);
                assert forall|setup: Setup, env: Assignment|
                    self.config.ok(setup) && #[trigger] layouter.sat(setup, env) implies env.cell(
                    c.cell,
                ) == absorb(env.cell(state.cell), env_fields(env, cells@).take(i + 1)) by {
                    assert(before.sat(setup, env));
                    let vs = env_fields(env, cells@);
                    assert(vs.take(i as int).push(vs[i as int]) =~= vs.take(i + 1));
                    lemma_absorb_push(env.cell(state.cell), vs.take(i as int), vs[i as int]);
                }
                assert forall|setup: Setup|
                    self.config.ok(setup) && self.config.distinct() && all_linked(setup, cells@)
                        && base.honest(setup) implies #[trigger] layouter.honest(setup) by {
                    assert(before.honest(setup));
                    assert(setup.cs.linked(at.cell.column));
                }
            }
            i += 1;
        }
        proof {
            assert(values.take(i as int) =~= values);
            assert forall|env: Assignment| (#[trigger] env_fields(env, cells@)).take(i as int)
                == env_fields(env, cells@) by {
                assert(env_fields(env, cells@).take(i as int) =~= env_fields(env, cells@));
            }
        }
        c
    }

    /// Commits to a tensor's cells: whatever satisfies the layout has in the returned cell the
    /// commitment to what it has in the tensor's. Nothing is laid out where the descriptor is
    /// not well formed or has another count.
    pub fn commit_assigned(
        &self,
        layouter: &mut Layouter,
        descriptor: &BoundaryDescriptor,
        values: &Vec<AssignedCell>,
    ) -> (res: Result<AssignedCell, SynthesisError>)
        requires
            all_have(*old(layouter), values@),
        ensures
            final(layouter).grows(*old(layouter)),
            res is Ok <==> descriptor@.error() is None && values@.len()
                == descriptor@.element_count,
            res is Err ==> *final(layouter) == *old(layouter),
            res matches Ok(c) ==> {
                &&& (Laid { trace: final(layouter).trace(), cells: seq![c.cell] })
                    == self.config.commitment_laid(
                    old(layouter).trace(),
                    descriptor@,
                    cells_of(values@),
                )
                &&& c.cell.column == self.config.state@[0]
                &&& c.value@ == commitment(descriptor@, cell_fields(values@))
                &&& final(layouter).has(c)
                &&& forall|setup: Setup, env: Assignment|
                    self.config.ok(setup) && #[trigger] final(layouter).sat(setup, env) ==> env.cell(c.cell) == commitment(descriptor@, env_fields(env, values@))
                &&& forall|setup: Setup|
                    self.config.ok(setup) && self.config.distinct() && all_linked(setup, values@)
                        && old(layouter).honest(setup) ==> #[trigger] final(layouter).honest(setup)
            },
    {
        if descriptor.validate().is_err() || values.len() != descriptor.element_count() {
            return Err(SynthesisError);
        }
        let ghost base = *layouter;
        let pair = identity_fields("zkie.poseidon-boundary-fold.v1");
        proof {
            assert(values_of(pair@)[0] == pair@[0]@);
        }
        let domain = self.assign_constant(layouter, pair[0]);
        let ghost l1 = *layouter;
        let mut fields = descriptor.canonical_fields();
        let ghost head = values_of(fields@);
        fields.push(Fr::from_u64(values.len() as u64));
        assert(values_of(fields@) =~= head + seq![values@.len() as int]);
        let folded = self.fold_constants(layouter, domain, &fields);
        let ghost l2 = *layouter;
        proof {
            lemma_hold(l1, base, values@);
            lemma_hold(l2, l1, values@);
        }
        let c = self.fold_cells(layouter, folded, values);
        proof {
            let l3 = *layouter;
            let start = commitment_domain();
            lemma_absorb_concat(start, values_of(fields@), cell_fields(values@));
            assert forall|setup: Setup, env: Assignment|
                self.config.ok(setup) && #[trigger] l3.sat(setup, env) implies env.cell(c.cell)
                == commitment(descriptor@, env_fields(env, values@)) by {
                assert(l2.sat(setup, env));
                assert(l1.sat(setup, env));
                lemma_absorb_concat(start, values_of(fields@), env_fields(env, values@));
            }
            assert forall|setup: Setup|
                self.config.ok(setup) && self.config.distinct() && all_linked(setup, values@)
                    && base.honest(setup) implies #[trigger] l3.honest(setup) by {
                assert(l1.honest(setup));
                assert(l2.honest(setup));
            }
        }
        Ok(c)
    }
}

} // verus!
