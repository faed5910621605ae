//! Bridges between the shifted and the unshifted representation of a value, and rows of
//! additions, multiplications and bridges over vectors of cells.
use vstd::prelude::*;

use crate::chips::eltwise::{assign_mul_row, EltwiseMulConfig};
use crate::field::{centered, lemma_centered, lemma_centered_congruent, modulus};
use crate::field_convert::{
    i128_to_fr, i64_to_fr, is_shifted, shifted_i64_witness, unshifted, SIGNED_SHIFT,
};
use crate::fixed_point::{is_i64, rescaled, I18};
use crate::layout::{cell_at, cells_of, AssignedCell, Cell, Laid, Layouter, Mark};
use crate::plonk::{
    group_extends, lemma_at_range, Assignment, Column, ConstraintSystem, Expression, Selector, Setup,
};

verus! {

/// Ties a shifted value to an unshifted one in the same row.
#[derive(Clone, Copy, Debug)]
pub struct BridgeConfig {
    pub shifted: Column,
    pub unshifted: Column,
    pub selector: Selector,
}

/// Vanishes where the second value is the first, shifted.
pub open spec fn bridge_gate(unshifted: int, shifted: int) -> int {
    unshifted + SIGNED_SHIFT - shifted
}

impl BridgeConfig {
    pub open spec fn ok(self, setup: Setup) -> bool {
        &&& forall|env: Assignment, r: int, o: int| #[trigger]
            setup.holds(self.selector, env, r, o) <==> bridge_gate(
                env.at(r, self.unshifted, o),
                env.at(r, self.shifted, o),
            ) % modulus() == 0
        &&& setup.cs.linked(self.shifted)
        &&& setup.cs.linked(self.unshifted)
    }

    pub open spec fn distinct(self) -> bool {
        self.shifted != self.unshifted
    }
}

impl BridgeConfig {
    /// The layout after a bridge.
    pub closed spec fn trace(self, t: Seq<Mark>) -> Seq<Mark> {
        t.push(Mark::Region).push(
            Mark::Enable { region: t.len() as usize, selector: self.selector, offset: 0 },
        ).push(Mark::Advice { cell: cell_at(t.len(), self.shifted, 0) }).push(
            Mark::Advice { cell: cell_at(t.len(), self.unshifted, 0) },
        )
    }

    /// The layout after a bridge from a shifted cell.
    pub closed spec fn unshift_trace(self, t: Seq<Mark>, shifted: Cell) -> Seq<Mark> {
        self.trace(t).push(Mark::Region).push(
            Mark::Equal { left: cell_at(t.len(), self.shifted, 0), right: shifted },
        )
    }

    /// The layout after bridges from the first `n` shifted cells, with the unshifted ones.
    pub closed spec fn unshift_laid(self, t: Seq<Mark>, shifted: Seq<Cell>, n: int) -> Laid
        decreases n,
    {
        if n <= 0 {
            Laid { trace: t, cells: Seq::empty() }
        } else {
            let before = self.unshift_laid(t, shifted, n - 1);
            Laid {
                trace: self.unshift_trace(before.trace, shifted[n - 1]),
                cells: before.cells.push(cell_at(before.trace.len(), self.unshifted, 0)),
            }
        }
    }
}

/// The layout after links between the first `n` cells of two vectors.
pub closed spec fn links_trace(t: Seq<Mark>, xs: Seq<Cell>, ys: Seq<Cell>, n: int) -> Seq<Mark>
    decreases n,
{
    if n <= 0 {
        t.push(Mark::Region)
    } else {
        links_trace(t, xs, ys, n - 1).push(Mark::Equal { left: xs[n - 1], right: ys[n - 1] })
    }
}

/// The layout after the products of the first `n` cells of two vectors, with the quotients.
pub closed spec fn multiply_laid(
    mul: EltwiseMulConfig,
    t: Seq<Mark>,
    xs: Seq<Cell>,
    ys: Seq<Cell>,
    n: int,
) -> Laid
    decreases n,
{
    if n <= 0 {
        Laid { trace: t, cells: Seq::empty() }
    } else {
        let before = multiply_laid(mul, t, xs, ys, n - 1);
        let region = before.trace.len();
        Laid {
            trace: mul.trace(before.trace).push(Mark::Region).push(
                Mark::Equal { left: cell_at(region, mul.a, 0), right: xs[n - 1] },
            ).push(Mark::Equal { left: cell_at(region, mul.b, 0), right: ys[n - 1] }),
            cells: before.cells.push(cell_at(region, mul.q, 0)),
        }
    }
}

/// What a bridge proves of its two cells: if either holds a 64-bit integer in its
/// representation, so does the other, and the integers are the same.
pub open spec fn bridged(unshifted_value: int, shifted_value: int) -> bool {
    &&& is_shifted(shifted_value) <==> is_i64(centered(unshifted_value))
    &&& is_shifted(shifted_value) ==> centered(unshifted_value) == unshifted(shifted_value)
}

pub proof fn lemma_bridged(u: int, s: int)
    requires
        0 <= u < modulus(),
        0 <= s < modulus(),
        bridge_gate(u, s) % modulus() == 0,
    ensures
        bridged(u, s),
{
    if is_shifted(s) {
        lemma_centered(unshifted(s), u);
    }
    if is_i64(centered(u)) {
        lemma_centered_congruent(u);
    }
}

/// Configures a bridge.
pub fn configure_bridge(meta: &mut ConstraintSystem, shifted: Column, unshifted: Column) -> (config:
    BridgeConfig)
    ensures
        config == (BridgeConfig {
            shifted,
            unshifted,
            selector: Selector(old(meta).rules@.len() as usize),
        }),
        final(meta).same_columns(*old(meta)),
        final(meta).rules@.len() == old(meta).rules@.len() + 1,
        final(meta).extends(*old(meta)),
        forall|setup: Setup| setup.cs.extends(*final(meta)) ==> #[trigger] config.ok(setup),
        forall|setup: Setup| #[trigger]
            setup.cs.extends(*final(meta)) ==> setup.rests_between(*old(meta), *final(meta)),
{
    meta.enable_equality(shifted);
    meta.enable_equality(unshifted);
    let shift = Expression::constant(i128_to_fr(SIGNED_SHIFT));
    let selector = meta.gate(
        Expression::cell(unshifted).plus(shift).minus(Expression::cell(shifted)),
    );
    let config = BridgeConfig { shifted, unshifted, selector };
    proof {
        broadcast use group_extends;

        assert forall|setup: Setup| setup.cs.extends(*meta) implies #[trigger] config.ok(setup) by {}
    }
    config
}

/// Witnesses a value unshifted and shifted in a row of its own. Returns the two cells, the
/// unshifted one first.
pub fn assign_bridge(cfg: &BridgeConfig, layouter: &mut Layouter, raw: i64) -> (cells: (
    AssignedCell,
    AssignedCell,
))
    ensures
        final(layouter).grows(*old(layouter)),
        final(layouter).trace() == cfg.trace(old(layouter).trace()),
        cells.0.is(old(layouter).next(), cfg.unshifted, 0, raw as int % modulus()),
        cells.1.is(old(layouter).next(), cfg.shifted, 0, raw + SIGNED_SHIFT),
        final(layouter).has(cells.0),
        final(layouter).has(cells.1),
        forall|setup: Setup, env: Assignment|
            cfg.ok(setup) && #[trigger] final(layouter).sat(setup, env) ==> bridged(
                env.cell(cells.0.cell),
                env.cell(cells.1.cell),
            ),
        forall|setup: Setup|
            cfg.ok(setup) && cfg.distinct() && old(layouter).honest(setup)
                ==> #[trigger] final(layouter).honest(setup),
{
    let ghost base = *layouter;
    let (shifted_fr, _) = shifted_i64_witness(raw);
    let region: usize = layouter.region();
    layouter.enable(region, cfg.selector, 0);
    let shifted_cell = layouter.assign_advice(region, cfg.shifted, 0, shifted_fr);
    let unshifted_cell = layouter.assign_advice(region, cfg.unshifted, 0, i64_to_fr(raw));
    proof {
        broadcast use lemma_at_range;

        let g = region as int;
        assert forall|setup: Setup, env: Assignment|
            cfg.ok(setup) && #[trigger] layouter.sat(setup, env) implies bridged(
            env.cell(unshifted_cell.cell),
            env.cell(shifted_cell.cell),
        ) by {
            assert(setup.holds(cfg.selector, env, g, 0));
            lemma_bridged(env.at(g, cfg.unshifted, 0), env.at(g, cfg.shifted, 0));
        }
        assert forall|setup: Setup|
            cfg.ok(setup) && cfg.distinct() && base.honest(
                setup,
            ) implies #[trigger] layouter.honest(setup) by {
            assert forall|env: Assignment| #[trigger] layouter.agrees(env) implies layouter.sat(
                setup,
                env,
            ) by {
                assert(base.agrees(env));
                assert(setup.holds(cfg.selector, env, g, 0));
            }
        }
    }
    (unshifted_cell, shifted_cell)
}

/// Bridges a shifted cell to a fresh unshifted one.
pub fn assign_unshift(
    cfg: &BridgeConfig,
    layouter: &mut Layouter,
    shifted_cell: AssignedCell,
    raw: i64,
) -> (c: AssignedCell)
    requires
        shifted_cell.value@ == raw + SIGNED_SHIFT,
        old(layouter).has(shifted_cell),
    ensures
        final(layouter).grows(*old(layouter)),
        final(layouter).trace() == cfg.unshift_trace(old(layouter).trace(), shifted_cell.cell),
        c.is(old(layouter).next(), cfg.unshifted, 0, raw as int % modulus()),
        final(layouter).has(c),
        forall|setup: Setup, env: Assignment|
            cfg.ok(setup) && #[trigger] final(layouter).sat(setup, env) ==> bridged(
                env.cell(c.cell),
                env.cell(shifted_cell.cell),
            ),
        forall|setup: Setup|
            cfg.ok(setup) && cfg.distinct() && setup.cs.linked(shifted_cell.cell.column) && old(
                layouter,
            ).honest(setup) ==> #[trigger] final(layouter).honest(setup),
{
    let ghost base = *layouter;
    let (unshifted_cell, copy): (AssignedCell, AssignedCell) = assign_bridge(cfg, layouter, raw);
    let ghost l1 = *layouter;
    layouter.region();
    layouter.constrain_equal(copy.cell, shifted_cell.cell);
    proof {
        assert forall|setup: Setup, env: Assignment|
            cfg.ok(setup) && #[trigger] layouter.sat(setup, env) implies bridged(
            env.cell(unshifted_cell.cell),
            env.cell(shifted_cell.cell),
        ) by {
            assert(l1.sat(setup, env));
        }
        assert forall|setup: Setup|
            cfg.ok(setup) && cfg.distinct() && setup.cs.linked(shifted_cell.cell.column)
                && base.honest(setup) implies #[trigger] layouter.honest(setup) by {
            assert(l1.honest(setup));
            assert forall|env: Assignment| #[trigger] layouter.agrees(env) implies layouter.sat(
                setup,
                env,
            ) by {
                assert(l1.agrees(env));
                assert(base.agrees(env));
            }
        }
    }
    unshifted_cell
}

/// The cells are in columns that copy constraints may touch.
pub open spec fn all_linked(setup: Setup, cells: Seq<AssignedCell>) -> bool {
    forall|i: int|
        0 <= i < cells.len() ==> setup.cs.linked((#[trigger] cells[i]).cell.column)
}

/// The cells hold the numbers, unshifted.
pub open spec fn hold_raw(l: Layouter, cells: Seq<AssignedCell>, xs: Seq<I18>) -> bool {
    &&& cells.len() == xs.len()
    &&& forall|i: int|
        0 <= i < cells.len() ==> l.has(#[trigger] cells[i]) && cells[i].value@ == xs[i]@
            % modulus()
}

/// The cells hold the numbers, shifted.
pub open spec fn hold_shifted(l: Layouter, cells: Seq<AssignedCell>, xs: Seq<I18>) -> bool {
    &&& cells.len() == xs.len()
    &&& forall|i: int|
        0 <= i < cells.len() ==> l.has(#[trigger] cells[i]) && cells[i].value@ == xs[i]@
            + SIGNED_SHIFT
}

/// The cells are all in one column.
pub open spec fn all_in(cells: Seq<AssignedCell>, column: Column) -> bool {
    forall|i: int| 0 <= i < cells.len() ==> (#[trigger] cells[i]).cell.column == column
}

/// A later record keeps the values that cells hold.
pub proof fn lemma_hold(l: Layouter, base: Layouter, cells: Seq<AssignedCell>)
    requires
        l.grows(base),
        forall|i: int| 0 <= i < cells.len() ==> base.has(#[trigger] cells[i]),
    ensures
        forall|i: int| 0 <= i < cells.len() ==> l.has(#[trigger] cells[i]),
{
    assert forall|i: int| 0 <= i < cells.len() implies l.has(#[trigger] cells[i]) by {
        assert(base.has(cells[i]));
        assert forall|env: Assignment| #[trigger] l.agrees(env) implies env.cell(cells[i].cell)
            == cells[i].value@ by {
            assert(base.agrees(env));
        }
    }
}

/// Cells are pairwise equal.
pub open spec fn equal_cells(env: Assignment, xs: Seq<AssignedCell>, ys: Seq<AssignedCell>) -> bool {
    forall|i: int|
        0 <= i < xs.len() ==> env.cell((#[trigger] xs[i]).cell) == env.cell(ys[i].cell)
}

/// Links two vectors of cells, pair by pair.
pub fn link_each(layouter: &mut Layouter, xs: &Vec<AssignedCell>, ys: &Vec<AssignedCell>)
    requires
        xs@.len() == ys@.len(),
    ensures
        final(layouter).grows(*old(layouter)),
        final(layouter).trace() == links_trace(
            old(layouter).trace(),
            cells_of(xs@),
            cells_of(ys@),
            xs@.len() as int,
        ),
        forall|setup: Setup, env: Assignment| #[trigger]
            final(layouter).sat(setup, env) ==> equal_cells(env, xs@, ys@),
        forall|setup: Setup|
            all_linked(setup, xs@) && all_linked(setup, ys@) && old(layouter).honest(setup) && (
            forall|i: int|
                0 <= i < xs@.len() ==> old(layouter).has(#[trigger] xs@[i]) && old(layouter).has(
                    ys@[i],
                ) && xs@[i].value@ == ys@[i].value@) ==> #[trigger] final(layouter).honest(setup),
{
    let ghost base = *layouter;
    layouter.region();
    let ghost agreed = forall|i: int|
        0 <= i < xs@.len() ==> base.has(#[trigger] xs@[i]) && base.has(ys@[i]) && xs@[i].value@
            == ys@[i].value@;
    let mut i: usize = 0;
    while i < xs.len()
        invariant
            i <= xs@.len(),
            xs@.len() == ys@.len(),
            layouter.grows(base),
            layouter.trace() == links_trace(
                base.trace(),
                cells_of(xs@),
                cells_of(ys@),
                i as int,
            ),
            agreed == (forall|i: int|
                0 <= i < xs@.len() ==> base.has(#[trigger] xs@[i]) && base.has(ys@[i])
                    && xs@[i].value@ == ys@[i].value@),
            forall|setup: Setup, env: Assignment, j: int|
                #![trigger layouter.sat(setup, env), xs@[j]]
                layouter.sat(setup, env) && 0 <= j < i ==> env.cell(xs@[j].cell) == env.cell(
                    ys@[j].cell,
                ),
            forall|env: Assignment| #[trigger] layouter.agrees(env) <==> base.agrees(env),
            forall|setup: Setup|
                all_linked(setup, xs@) && all_linked(setup, ys@) && base.honest(setup) && agreed
                    ==> #[trigger] layouter.honest(setup),
        decreases xs@.len() - i,
    {
        let ghost before = *layouter;
        layouter.constrain_equal(xs[i].cell, ys[i].cell);
        proof {
            assert forall|setup: Setup|
                all_linked(setup, xs@) && all_linked(setup, ys@) && base.honest(setup)
                    && agreed implies #[trigger] layouter.honest(setup) by {
                assert(before.honest(setup));
                assert(base.has(xs@[i as int]) && base.has(ys@[i as int]));
                assert(setup.cs.linked(xs@[i as int].cell.column));
                assert(setup.cs.linked(ys@[i as int].cell.column));
                assert forall|env: Assignment| #[trigger] layouter.agrees(
                    env,
                ) implies layouter.sat(setup, env) by {
                    assert(before.agrees(env));
                    assert(base.agrees(env));
                }
            }
            assert forall|setup: Setup, env: Assignment, j: int|
                #![trigger layouter.sat(setup, env), xs@[j]]
                layouter.sat(setup, env) && 0 <= j < i + 1 implies env.cell(xs@[j].cell)
                == env.cell(ys@[j].cell) by {
                assert(before.sat(setup, env));
            }
        }
        i += 1;
    }
}

/// Each unshifted cell is bridged to its shifted one.
pub open spec fn all_bridged(
    env: Assignment,
    unshifted_cells: Seq<AssignedCell>,
    shifted_cells: Seq<AssignedCell>,
) -> bool {
    forall|i: int|
        0 <= i < unshifted_cells.len() ==> bridged(
            env.cell((#[trigger] unshifted_cells[i]).cell),
            env.cell(shifted_cells[i].cell),
        )
}

/// Bridges each shifted cell to a fresh unshifted one.
pub fn unshift_each(
    cfg: &BridgeConfig,
    layouter: &mut Layouter,
    shifted_cells: &Vec<AssignedCell>,
    xs: &Vec<I18>,
) -> (cells: Vec<AssignedCell>)
    requires
        hold_shifted(*old(layouter), shifted_cells@, xs@),
    ensures
        final(layouter).grows(*old(layouter)),
        (Laid { trace: final(layouter).trace(), cells: cells_of(cells@) }) == cfg.unshift_laid(
            old(layouter).trace(),
            cells_of(shifted_cells@),
            xs@.len() as int,
        ),
        hold_raw(*final(layouter), cells@, xs@),
        all_in(cells@, cfg.unshifted),
        forall|setup: Setup, env: Assignment|
            cfg.ok(setup) && #[trigger] final(layouter).sat(setup, env) ==> all_bridged(
                env,
                cells@,
                shifted_cells@,
            ),
        forall|setup: Setup|
            cfg.ok(setup) && cfg.distinct() && all_linked(setup, shifted_cells@) && old(layouter).honest(setup)
                ==> #[trigger] final(layouter).honest(setup),
{
    let ghost base = *layouter;
    let mut cells: Vec<AssignedCell> = Vec::new();
    assert(cells_of(cells@) =~= Seq::<Cell>::empty());
    let mut i: usize = 0;
    while i < xs.len()
        invariant
            i <= xs@.len(),
            hold_shifted(base, shifted_cells@, xs@),
            layouter.grows(base),
            (Laid { trace: layouter.trace(), cells: cells_of(cells@) }) == cfg.unshift_laid(
                base.trace(),
                cells_of(shifted_cells@),
                i as int,
            ),
            cells@.len() == i,
            all_in(cells@, cfg.unshifted),
            forall|j: int|
                0 <= j < i ==> layouter.has(#[trigger] cells@[j]) && cells@[j].value@ == xs@[j]@
                    % modulus(),
            forall|setup: Setup, env: Assignment, j: int|
                #![trigger layouter.sat(setup, env), cells@[j]]
                cfg.ok(setup) && layouter.sat(setup, env) && 0 <= j < i ==> bridged(
                    env.cell(cells@[j].cell),
                    env.cell(shifted_cells@[j].cell),
                ),
            forall|setup: Setup|
                cfg.ok(setup) && cfg.distinct() && all_linked(setup, shifted_cells@) && base.honest(setup)
                    ==> #[trigger] layouter.honest(setup),
        decreases xs@.len() - i,
    {
        let ghost before = *layouter;
        proof {
            assert(base.has(shifted_cells@[i as int]));
            assert forall|env: Assignment| #[trigger] layouter.agrees(env) implies env.cell(
                shifted_cells@[i as int].cell,
            ) == shifted_cells@[i as int].value@ by {
                assert(base.agrees(env));
            }
        }
        let c = assign_unshift(cfg, layouter, shifted_cells[i], xs[i].raw());
        proof {
            lemma_hold(*layouter, before, cells@);
        }
        let ghost prev = cells@;
        cells.push(c);
        assert(cells_of(cells@) =~= cells_of(prev).push(c.cell));
        proof {
            assert forall|j: int| 0 <= j < i + 1 implies layouter.has(#[trigger] cells@[j])
                && cells@[j].value@ == xs@[j]@ % modulus() by {
                if j < i {
                    assert(layouter.has(prev[j]));
                }
            }
            assert forall|setup: Setup|
                cfg.ok(setup) && cfg.distinct() && all_linked(setup, shifted_cells@) && base.honest(
                    setup,
                ) implies #[trigger] layouter.honest(setup) by {
                assert(before.honest(setup));
                assert(setup.cs.linked(shifted_cells@[i as int].cell.column));
            }
            assert forall|setup: Setup, env: Assignment, j: int|
                #![trigger layouter.sat(setup, env), cells@[j]]
                cfg.ok(setup) && layouter.sat(setup, env) && 0 <= j < i + 1 implies bridged(
                env.cell(cells@[j].cell),
                env.cell(shifted_cells@[j].cell),
            ) by {
                assert(before.sat(setup, env));
                if j < i {
                    assert(cells@[j] == prev[j]);
                }
            }
        }
        i += 1;
    }
    cells
}

/// Each operand is a 64-bit integer and each quotient is their product, requantized.
pub open spec fn all_multiplied(
    env: Assignment,
    xs: Seq<AssignedCell>,
    ys: Seq<AssignedCell>,
    qs: Seq<AssignedCell>,
) -> bool {
    forall|i: int|
        0 <= i < qs.len() ==> {
            let (x, y) = (centered(env.cell(xs[i].cell)), centered(env.cell(ys[i].cell)));
            let q = env.cell((#[trigger] qs[i]).cell);
            &&& is_i64(x) && is_i64(y) && is_shifted(q)
            &&& unshifted(q) == rescaled(x * y)
        }
}

/// The requantized products of two vectors.
pub open spec fn each_product(xs: Seq<I18>, ys: Seq<I18>, qs: Seq<I18>) -> bool {
    &&& qs.len() == xs.len()
    &&& forall|i: int| 0 <= i < qs.len() ==> (#[trigger] qs[i])@ == rescaled(xs[i]@ * ys[i]@)
}

/// Multiplies two vectors element by element and links the operands to their cells. Returns
/// the products with their shifted cells.
pub fn multiply_each(
    mul: &EltwiseMulConfig,
    layouter: &mut Layouter,
    xs: &Vec<I18>,
    x_cells: &Vec<AssignedCell>,
    ys: &Vec<I18>,
    y_cells: &Vec<AssignedCell>,
) -> (res: (Vec<I18>, Vec<AssignedCell>))
    requires
        mul.wf(),
        xs@.len() == ys@.len(),
        hold_raw(*old(layouter), x_cells@, xs@),
        hold_raw(*old(layouter), y_cells@, ys@),
        forall|i: int| 0 <= i < xs@.len() ==> is_i64(rescaled((#[trigger] xs@[i])@ * ys@[i]@)),
    ensures
        final(layouter).grows(*old(layouter)),
        (Laid { trace: final(layouter).trace(), cells: cells_of(res.1@) }) == multiply_laid(
            *mul,
            old(layouter).trace(),
            cells_of(x_cells@),
            cells_of(y_cells@),
            xs@.len() as int,
        ),
        each_product(xs@, ys@, res.0@),
        hold_shifted(*final(layouter), res.1@, res.0@),
        all_in(res.1@, mul.q),
        forall|setup: Setup, env: Assignment|
            mul.ok(setup) && #[trigger] final(layouter).sat(setup, env) ==> all_multiplied(
                env,
                x_cells@,
                y_cells@,
                res.1@,
            ),
        forall|setup: Setup|
            mul.ok(setup) && mul.distinct() && all_linked(setup, x_cells@) && all_linked(
                setup,
                y_cells@,
            ) && old(layouter).honest(setup) ==> #[trigger] final(layouter).honest(setup),
{
    let ghost base = *layouter;
    let mut values: Vec<I18> = Vec::new();
    let mut cells: Vec<AssignedCell> = Vec::new();
    assert(cells_of(cells@) =~= Seq::<Cell>::empty());
    let mut i: usize = 0;
    while i < xs.len()
        invariant
            i <= xs@.len(),
            xs@.len() == ys@.len(),
            mul.wf(),
            hold_raw(base, x_cells@, xs@),
            hold_raw(base, y_cells@, ys@),
            forall|i: int| 0 <= i < xs@.len() ==> is_i64(rescaled((#[trigger] xs@[i])@ * ys@[i]@)),
            layouter.grows(base),
            (Laid { trace: layouter.trace(), cells: cells_of(cells@) }) == multiply_laid(
                *mul,
                base.trace(),
                cells_of(x_cells@),
                cells_of(y_cells@),
                i as int,
            ),
            cells@.len() == i,
            values@.len() == i,
            all_in(cells@, mul.q),
            forall|j: int|
                0 <= j < i ==> (#[trigger] values@[j])@ == rescaled(xs@[j]@ * ys@[j]@),
            forall|j: int|
                0 <= j < i ==> layouter.has(#[trigger] cells@[j]) && cells@[j].value@
                    == values@[j]@ + SIGNED_SHIFT,
            forall|setup: Setup, env: Assignment, j: int|
                #![trigger layouter.sat(setup, env), cells@[j]]
                mul.ok(setup) && layouter.sat(setup, env) && 0 <= j < i ==> {
                    let (x, y) = (
                        centered(env.cell(x_cells@[j].cell)),
                        centered(env.cell(y_cells@[j].cell)),
                    );
                    let q = env.cell(cells@[j].cell);
                    &&& is_i64(x) && is_i64(y) && is_shifted(q)
                    &&& unshifted(q) == rescaled(x * y)
                },
            forall|setup: Setup|
                mul.ok(setup) && mul.distinct() && all_linked(setup, x_cells@) && all_linked(
                    setup,
                    y_cells@,
                ) && base.honest(setup) ==> #[trigger] layouter.honest(setup),
        decreases xs@.len() - i,
    {
        let ghost before = *layouter;
        assert(is_i64(rescaled(xs@[i as int]@ * ys@[i as int]@)));
        let row = assign_mul_row(mul, layouter, xs[i], ys[i]);
        let ghost mid = *layouter;
        layouter.region();
        layouter.constrain_equal(row.a.cell, x_cells[i].cell);
        layouter.constrain_equal(row.b.cell, y_cells[i].cell);
        let (q, _): (I18, i128) = crate::fixed_point::requantize_mul(xs[i], ys[i]).unwrap();
        proof {
            lemma_hold(*layouter, before, cells@);
            assert(base.has(x_cells@[i as int]) && base.has(y_cells@[i as int]));
        }
        let ghost prev = cells@;
        values.push(q);
        cells.push(row.q);
        assert(cells_of(cells@) =~= cells_of(prev).push(row.q.cell));
        proof {
            assert forall|j: int| 0 <= j < i + 1 implies layouter.has(#[trigger] cells@[j])
                && cells@[j].value@ == values@[j]@ + SIGNED_SHIFT by {
                if j < i {
                    assert(layouter.has(prev[j]));
                }
            }
            assert forall|setup: Setup|
                mul.ok(setup) && mul.distinct() && all_linked(setup, x_cells@) && all_linked(
                    setup,
                    y_cells@,
                ) && base.honest(setup) implies #[trigger] layouter.honest(setup) by {
                assert(before.honest(setup));
                assert(mid.honest(setup));
                assert(setup.cs.linked(x_cells@[i as int].cell.column));
                assert(setup.cs.linked(y_cells@[i as int].cell.column));
                assert forall|env: Assignment| #[trigger] layouter.agrees(
                    env,
                ) implies layouter.sat(setup, env) by {
                    assert(mid.agrees(env));
                    assert(before.agrees(env));
                    assert(base.agrees(env));
                }
            }
            assert forall|setup: Setup, env: Assignment, j: int|
                #![trigger layouter.sat(setup, env), cells@[j]]
                mul.ok(setup) && layouter.sat(setup, env) && 0 <= j < i + 1 implies {
                let (x, y) = (
                    centered(env.cell(x_cells@[j].cell)),
                    centered(env.cell(y_cells@[j].cell)),
                );
                let q = env.cell(cells@[j].cell);
                &&& is_i64(x) && is_i64(y) && is_shifted(q)
                &&& unshifted(q) == rescaled(x * y)
            } by {
                assert(mid.sat(setup, env));
                assert(before.sat(setup, env));
                if j < i {
                    assert(cells@[j] == prev[j]);
                }
            }
        }
        i += 1;
    }
    (values, cells)
}

} // verus!
