//! Sums and means over a fixed count of fixed-point numbers.
use vstd::prelude::*;

use crate::chips::eltwise::{
    lemma_mul_complete, lemma_mul_sound, lemma_shift_complete, lemma_shift_sound,
    lemma_slack_sound, mul_gate, rescale_expression, shift_expression, shift_gate,
    slack_expression, slack_gate, REMAINDER_BITS, SHIFTED_BITS,
};
use crate::chips::range_check::{RangeCheckChip, RangeCheckConfig};
use crate::digits::lemma_pow_64;
use crate::field::{centered, lemma_centered, lemma_centered_congruent, modulus};
use crate::field_convert::{
    i128_to_fr, i64_to_fr, is_shifted, shifted_i64_witness, unshifted, SIGNED_SHIFT,
};
use crate::fixed_point::{is_i64, lemma_i18_range, requantize_mul, rescaled, I18, SCALE_18};
use crate::layout::{cell_at, cells_of, column_of, AssignedCell, Cell, Layouter, Mark};
use crate::plonk::{
    group_extends, lemma_at_range, Assignment, Column, ConstraintSystem, Expression, Selector, Setup,
};

verus! {

/// The sum of a sequence of integers.
pub open spec fn total(s: Seq<int>) -> int
    decreases s.len(),
{
    if s.len() == 0 {
        0
    } else {
        total(s.drop_last()) + s.last()
    }
}

/// The raw values of numbers.
pub open spec fn raws(s: Seq<I18>) -> Seq<int> {
    Seq::new(s.len(), |i: int| s[i]@)
}

/// The signed integers in cells.
pub open spec fn cell_raws(env: Assignment, cells: Seq<AssignedCell>) -> Seq<int> {
    Seq::new(cells.len(), |i: int| centered(env.cell(cells[i].cell)))
}

/// Every partial sum of the values is a 64-bit integer.
pub open spec fn totals_fit(s: Seq<int>) -> bool {
    forall|i: int| 0 <= i <= s.len() ==> is_i64(total(#[trigger] s.take(i)))
}

/// Every partial sum of the numbers is a 64-bit integer.
pub open spec fn sums_fit(s: Seq<I18>) -> bool {
    totals_fit(raws(s))
}

/// A sum of 64-bit integers is small against the field.
pub proof fn lemma_total_range(s: Seq<int>)
    requires
        forall|i: int| 0 <= i < s.len() ==> is_i64(#[trigger] s[i]),
    ensures
        -0x8000_0000_0000_0000int * s.len() <= total(s) <= 0x8000_0000_0000_0000int * s.len(),
    decreases s.len(),
{
    if s.len() > 0 {
        let t = s.drop_last();
        assert forall|i: int| 0 <= i < t.len() implies is_i64(#[trigger] t[i]) by {
            assert(t[i] == s[i]);
        }
        lemma_total_range(t);
        assert(is_i64(s[s.len() - 1]));
    }
}

pub proof fn lemma_total_step(s: Seq<int>, i: int)
    requires
        0 <= i < s.len(),
    ensures
        total(s.take(i + 1)) == total(s.take(i)) + s[i],
{
    assert(s.take(i + 1).drop_last() =~= s.take(i));
}

#[derive(Clone, Copy, Debug)]
pub struct ReduceSumConfig {
    pub values: Column,
    pub sum: Column,
    pub sum_shift: Column,
    pub s_first: Selector,
    pub s_running: Selector,
    pub s_shift: Selector,
    pub range_sum: RangeCheckConfig,
    pub k: usize,
}

impl ReduceSumConfig {
    pub open spec fn wf(self) -> bool {
        &&& self.range_sum.value == self.sum_shift && self.range_sum.n_bits == 64
        &&& self.k >= 1
    }

    pub open spec fn distinct(self) -> bool {
        &&& self.values != self.sum && self.values != self.sum_shift && self.sum != self.sum_shift
        &&& self.sum_shift != self.range_sum.bits
    }

    pub open spec fn ok(self, setup: Setup) -> bool {
        &&& forall|env: Assignment, r: int, o: int| #[trigger]
            setup.holds(self.s_first, env, r, o) <==> (env.at(r, self.sum, o) - env.at(
                r,
                self.values,
                o,
            )) % modulus() == 0
        &&& forall|env: Assignment, r: int, o: int| #[trigger]
            setup.holds(self.s_running, env, r, o) <==> (env.at(r, self.sum, o - 1) + env.at(
                r,
                self.values,
                o,
            ) - env.at(r, self.sum, o)) % modulus() == 0
        &&& forall|env: Assignment, r: int, o: int| #[trigger]
            setup.holds(self.s_shift, env, r, o) <==> shift_gate(
                env.at(r, self.sum, o),
                env.at(r, self.sum_shift, o),
            ) % modulus() == 0
        &&& self.range_sum.ok(setup)
        &&& setup.cs.linked(self.values)
        &&& setup.cs.linked(self.sum)
        &&& setup.cs.linked(self.sum_shift)
    }
}

/// The rows of a running sum hold.
spec fn running(cfg: ReduceSumConfig, setup: Setup, env: Assignment, r: int, n: int) -> bool {
    &&& n > 0 ==> setup.holds(cfg.s_first, env, r, 0)
    &&& forall|j: int| 1 <= j < n ==> #[trigger] setup.holds(cfg.s_running, env, r, j)
}

/// The sum in a row is congruent to the sum of the values up to it.
proof fn lemma_running(cfg: ReduceSumConfig, setup: Setup, env: Assignment, r: int, n: int, vals: Seq<int>, j: int)
    requires
        cfg.ok(setup),
        running(cfg, setup, env, r, n),
        0 <= j < n,
        vals.len() == n,
        forall|i: int|
            0 <= i < n ==> (#[trigger] vals[i] - env.at(r, cfg.values, i)) % modulus() == 0,
    ensures
        (env.at(r, cfg.sum, j) - total(vals.take(j + 1))) % modulus() == 0,
    decreases j,
{
    lemma_total_step(vals, j);
    assert((vals[j] - env.at(r, cfg.values, j)) % modulus() == 0);
    if j == 0 {
        assert(setup.holds(cfg.s_first, env, r, 0));
        assert(vals.take(0) =~= Seq::empty());
    } else {
        lemma_running(cfg, setup, env, r, n, vals, j - 1);
        assert(setup.holds(cfg.s_running, env, r, j));
        assert(env.at(r, cfg.sum, j - 1) == env.at(r, cfg.sum, j - 1));
    }
}

pub struct ReduceSumChip {
    pub config: ReduceSumConfig,
}

/// The cells hold a 64-bit sum, and where the values are 64-bit integers it is theirs.
pub open spec fn sum_sound(env: Assignment, sum: AssignedCell, values: Seq<AssignedCell>) -> bool {
    let vals = cell_raws(env, values);
    let s = centered(env.cell(sum.cell));
    &&& is_i64(s)
    &&& (s - total(vals)) % modulus() == 0
    &&& (forall|i: int| 0 <= i < vals.len() ==> is_i64(#[trigger] vals[i])) ==> s == total(vals)
}

/// The cells are those of a column's rows with the numbers' values.
pub open spec fn column_cells(
    cells: Seq<AssignedCell>,
    region: int,
    column: Column,
    inputs: Seq<I18>,
) -> bool {
    &&& cells.len() == inputs.len()
    &&& forall|i: int|
        0 <= i < cells.len() ==> (#[trigger] cells[i]).is(
            region,
            column,
            i,
            inputs[i]@ % modulus(),
        )
}

impl ReduceSumConfig {
    /// The layout after the first `n` rows of a sum.
    pub closed spec fn rows_trace(self, t: Seq<Mark>, region: nat, n: int) -> Seq<Mark>
        decreases n,
    {
        if n <= 0 {
            t
        } else {
            let i = n - 1;
            self.rows_trace(t, region, i).push(
                Mark::Advice { cell: cell_at(region, self.values, i) },
            ).push(
                Mark::Enable {
                    region: region as usize,
                    selector: if i == 0 {
                        self.s_first
                    } else {
                        self.s_running
                    },
                    offset: i as usize,
                },
            ).push(Mark::Advice { cell: cell_at(region, self.sum, i) })
        }
    }

    /// The layout after a sum of `n` numbers.
    pub closed spec fn trace(self, t: Seq<Mark>, n: int) -> Seq<Mark> {
        let shift = cell_at(t.len(), self.sum_shift, n - 1);
        let main = self.rows_trace(t.push(Mark::Region), t.len(), n).push(
            Mark::Enable {
                region: t.len() as usize,
                selector: self.s_shift,
                offset: (n - 1) as usize,
            },
        ).push(Mark::Advice { cell: shift });
        self.range_sum.trace(main).push(Mark::Region).push(
            Mark::Equal { left: shift, right: self.range_sum.bounded_cell(main) },
        )
    }
}

impl ReduceSumChip {
    pub fn configure(
        meta: &mut ConstraintSystem,
        values: Column,
        sum: Column,
        sum_shift: Column,
        bits: Column,
        k: usize,
    ) -> (config: ReduceSumConfig)
        requires
            k >= 1,
        ensures
            config.wf(),
            config.values == values && config.sum == sum && config.sum_shift == sum_shift
                && config.range_sum.bits == bits && config.k == k,
            final(meta).same_columns(*old(meta)),
            final(meta).rules@.len() == old(meta).rules@.len() + 5,
            final(meta).extends(*old(meta)),
            forall|setup: Setup|
                setup.cs.extends(*final(meta)) ==> #[trigger] config.ok(setup),
            forall|setup: Setup| #[trigger]
                setup.cs.extends(*final(meta)) ==> setup.rests_between(*old(meta), *final(meta)),
    {
        meta.enable_equality(values);
        meta.enable_equality(sum);
        meta.enable_equality(sum_shift);
        let s_first = meta.gate(Expression::cell(sum).minus(Expression::cell(values)));
        let s_running = meta.gate(
            Expression::cell_at(sum, -1).plus(Expression::cell(values)).minus(Expression::cell(sum)),
        );
        let s_shift = meta.gate(shift_expression(sum, sum_shift));
        let range_sum = RangeCheckChip::configure(meta, sum_shift, bits, SHIFTED_BITS);
        let config = ReduceSumConfig {
            values,
            sum,
            sum_shift,
            s_first,
            s_running,
            s_shift,
            range_sum,
            k,
        };
        proof {
            broadcast use group_extends;

            assert forall|setup: Setup| setup.cs.extends(*meta) implies #[trigger] config.ok(
                setup,
            ) by {}
        }
        config
    }

    pub fn construct(config: ReduceSumConfig) -> (chip: Self)
        ensures
            chip.config == config,
    {
        ReduceSumChip { config }
    }

    /// Sums the inputs in a region, range-checks the sum as a signed 64-bit integer and
    /// returns it with its (unshifted) cell and the cells of the inputs.
    pub fn assign(&self, layouter: &mut Layouter, inputs: &Vec<I18>) -> (res: (
        I18,
        AssignedCell,
        Vec<AssignedCell>,
    ))
        requires
            self.config.wf(),
            inputs@.len() == self.config.k,
            sums_fit(inputs@),
        ensures
            final(layouter).grows(*old(layouter)),
            final(layouter).trace() == self.config.trace(
                old(layouter).trace(),
                inputs@.len() as int,
            ),
            cells_of(res.2@) == column_of(
                old(layouter).trace().len(),
                self.config.values,
                inputs@.len() as int,
            ),
            res.0@ == total(raws(inputs@)),
            res.1.is(
                old(layouter).next(),
                self.config.sum,
                inputs@.len() - 1,
                res.0@ % modulus(),
            ),
            column_cells(res.2@, old(layouter).next(), self.config.values, inputs@),
            final(layouter).has(res.1),
            forall|i: int| 0 <= i < res.2@.len() ==> final(layouter).has(#[trigger] res.2@[i]),
            forall|setup: Setup, env: Assignment|
                self.config.ok(setup) && #[trigger] final(layouter).sat(setup, env) ==> sum_sound(
                    env,
                    res.1,
                    res.2@,
                ),
            forall|setup: Setup|
                self.config.ok(setup) && self.config.distinct() && old(layouter).honest(setup)
                    ==> #[trigger] final(layouter).honest(setup),
    {
        broadcast use {lemma_i18_range, lemma_at_range};

        let cfg = self.config;
        let n: usize = inputs.len();
        let ghost base = *layouter;
        let ghost ins = raws(inputs@);
        let region: usize = layouter.region();
        let mut cells: Vec<AssignedCell> = Vec::new();
        let mut sum: i64 = 0;
        let mut sum_cell = AssignedCell {
            cell: crate::layout::Cell { region, column: cfg.sum, offset: 0 },
            value: i64_to_fr(0),
        };
        let mut i: usize = 0;
        let ghost r = region as int;
        assert(ins.take(0) =~= Seq::empty());
        while i < n
            invariant
                i <= n,
                n == inputs@.len(),
                ins == raws(inputs@),
                sums_fit(inputs@),
                sum as int == total(ins.take(i as int)),
                r == region,
                r == base.next(),
                r < layouter.next(),
                layouter.known == base.known,
                layouter.tables() == base.tables(),
                layouter.trace() == cfg.rows_trace(
                    base.trace().push(Mark::Region),
                    base.trace().len(),
                    i as int,
                ),
                cells@.len() == i,
                forall|j: int|
                    0 <= j < i ==> (#[trigger] cells@[j]).is(
                        r,
                        cfg.values,
                        j,
                        inputs@[j]@ % modulus(),
                    ),
                i > 0 ==> sum_cell.is(r, cfg.sum, i - 1, sum as int % modulus()),
                forall|env: Assignment| #[trigger] layouter.agrees(env) ==> base.agrees(env),
                forall|env: Assignment, j: int|
                    #![trigger layouter.agrees(env), env.at(r, cfg.values, j)]
                    layouter.agrees(env) && 0 <= j < i ==> env.at(r, cfg.values, j) == inputs@[j]@
                        % modulus(),
                forall|env: Assignment| #[trigger]
                    layouter.agrees(env) && i > 0 ==> env.at(r, cfg.sum, i - 1) == sum as int
                        % modulus(),
                forall|setup: Setup, env: Assignment| #[trigger]
                    layouter.sat(setup, env) ==> base.sat(setup, env) && running(
                        cfg,
                        setup,
                        env,
                        r,
                        i as int,
                    ),
                forall|setup: Setup, env: Assignment|
                    cfg.ok(setup) && base.sat(setup, env) && layouter.agrees(env)
                        ==> #[trigger] layouter.sat(setup, env),
                base.fresh() ==> layouter.fresh(),
                base.fresh() && cfg.distinct() ==> forall|o: int|
                    o >= i ==> !#[trigger] layouter.assigned(r, cfg.values, o),
                base.fresh() && cfg.distinct() ==> forall|o: int|
                    o >= i ==> !#[trigger] layouter.assigned(r, cfg.sum, o),
                base.fresh() && cfg.distinct() ==> forall|o: int| !#[trigger]
                    layouter.assigned(r, cfg.sum_shift, o),
                base.fresh() && base.consistent() && cfg.distinct() ==> layouter.consistent(),
            decreases n - i,
        {
            let ghost before = *layouter;
            let ghost prev = sum as int;
            proof {
                lemma_total_step(ins, i as int);
                assert(is_i64(total(ins.take(i + 1))));
            }
            let x: i64 = inputs[i].raw();
            let value_cell = layouter.assign_advice(region, cfg.values, i, i64_to_fr(x));
            cells.push(value_cell);
            sum = sum + x;
            if i == 0 {
                layouter.enable(region, cfg.s_first, 0);
            } else {
                layouter.enable(region, cfg.s_running, i);
            }
            sum_cell = layouter.assign_advice(region, cfg.sum, i, i64_to_fr(sum));
            proof {
                assert forall|setup: Setup, env: Assignment|
                    cfg.ok(setup) && base.sat(setup, env) && layouter.agrees(
                        env,
                    ) implies #[trigger] layouter.sat(setup, env) by {
                    assert(before.agrees(env));
                    assert(before.sat(setup, env));
                    if i == 0 {
                        assert(setup.holds(cfg.s_first, env, r, 0));
                    } else {
                        assert(env.at(r, cfg.sum, i - 1) == prev % modulus());
                        assert(setup.holds(cfg.s_running, env, r, i as int));
                    }
                }
            }
            i += 1;
        }
        proof {
            assert(ins.take(n as int) =~= ins);
            assert(is_i64(total(ins.take(n as int))));
        }
        let (shift_fr, shift_raw) = shifted_i64_witness(sum);
        let last: usize = n - 1;
        let ghost filled = *layouter;
        layouter.enable(region, cfg.s_shift, last);
        let shift_cell = layouter.assign_advice(region, cfg.sum_shift, last, shift_fr);
        let ghost main = *layouter;
        let range_cell = RangeCheckChip::construct(cfg.range_sum).assign(
            layouter,
            shift_fr,
            shift_raw,
        );
        let ghost l1 = *layouter;
        layouter.region();
        layouter.constrain_equal(shift_cell.cell, range_cell.cell);
        proof {
            lemma_pow_64();
            assert(cells_of(cells@) =~= column_of(base.trace().len(), cfg.values, n as int));
            assert forall|i: int| 0 <= i < cells@.len() implies layouter.has(
                #[trigger] cells@[i],
            ) by {
                assert forall|env: Assignment| #[trigger] layouter.agrees(env) implies env.cell(
                    cells@[i].cell,
                ) == cells@[i].value@ by {
                    assert(l1.agrees(env));
                    assert(main.agrees(env));
                    assert(filled.agrees(env));
                    assert(env.at(r, cfg.values, i) == inputs@[i]@ % modulus());
                }
            }
            assert forall|setup: Setup, env: Assignment|
                cfg.ok(setup) && #[trigger] layouter.sat(setup, env) implies sum_sound(
                env,
                sum_cell,
                cells@,
            ) by {
                assert(l1.sat(setup, env));
                assert(main.sat(setup, env));
                assert(filled.sat(setup, env));
                let vals = cell_raws(env, cells@);
                assert forall|j: int| 0 <= j < n implies (#[trigger] vals[j] - env.at(
                    r,
                    cfg.values,
                    j,
                )) % modulus() == 0 by {
                    assert(cells@[j].is(r, cfg.values, j, inputs@[j]@ % modulus()));
                    lemma_centered_congruent(env.at(r, cfg.values, j));
                }
                lemma_running(cfg, setup, env, r, n as int, vals, last as int);
                assert(vals.take(n as int) =~= vals);
                assert(setup.holds(cfg.s_shift, env, r, last as int));
                let s = env.at(r, cfg.sum, last as int);
                lemma_shift_sound(s, env.at(r, cfg.sum_shift, last as int));
                lemma_centered_congruent(s);
                if forall|i: int| 0 <= i < vals.len() ==> is_i64(#[trigger] vals[i]) {
                    lemma_total_range(vals);
                    assert(0x8000_0000_0000_0000int * n <= 0x8000_0000_0000_0000int
                        * 0x1_0000_0000_0000_0000int);
                    lemma_centered(total(vals), s);
                }
            }
            assert forall|setup: Setup|
                cfg.ok(setup) && cfg.distinct() && base.honest(
                    setup,
                ) implies #[trigger] layouter.honest(setup) by {
                assert(main.honest(setup)) by {
                    assert forall|env: Assignment| #[trigger] main.agrees(env) implies main.sat(
                        setup,
                        env,
                    ) by {
                        assert(filled.agrees(env));
                        assert(base.agrees(env));
                        assert(filled.sat(setup, env));
                        lemma_shift_complete(sum as int);
                        assert(setup.holds(cfg.s_shift, env, r, last as int));
                    }
                }
                assert(l1.honest(setup));
                assert forall|env: Assignment| #[trigger] layouter.agrees(
                    env,
                ) implies layouter.sat(setup, env) by {
                    assert(l1.agrees(env));
                    assert(main.agrees(env));
                    assert(l1.sat(setup, env));
                }
            }
        }
        (I18::from_raw(sum), sum_cell, cells)
    }
}

/// Mean of a fixed count of numbers: their sum times the number nearest to the count's
/// reciprocal, requantized. The reciprocal is a constant.
#[derive(Clone, Copy, Debug)]
pub struct ReduceMeanConfig {
    pub sum: ReduceSumConfig,
    pub q: Column,
    pub r: Column,
    pub slack: Column,
    pub s_rescale: Selector,
    pub s_slack: Selector,
    pub range_q: RangeCheckConfig,
    pub range_r: RangeCheckConfig,
    pub range_r_slack: RangeCheckConfig,
    pub reciprocal: I18,
}

impl ReduceMeanConfig {
    pub open spec fn wf(self) -> bool {
        &&& self.sum.wf()
        &&& self.range_q.value == self.q && self.range_q.n_bits == 64
        &&& self.range_r.value == self.r && self.range_r.n_bits == 60
        &&& self.range_r_slack.value == self.slack && self.range_r_slack.n_bits == 60
        &&& self.range_q.bits == self.sum.range_sum.bits
        &&& self.range_r.bits == self.sum.range_sum.bits
        &&& self.range_r_slack.bits == self.sum.range_sum.bits
    }

    pub open spec fn distinct(self) -> bool {
        let bits = self.sum.range_sum.bits;
        &&& self.sum.distinct()
        &&& self.sum.sum != self.q && self.sum.sum != self.r && self.sum.sum != self.slack
        &&& self.q != self.r && self.q != self.slack && self.q != bits
        &&& self.r != self.slack && self.r != bits && self.slack != bits
    }

    pub open spec fn ok(self, setup: Setup) -> bool {
        &&& self.sum.ok(setup)
        &&& forall|env: Assignment, r: int, o: int| #[trigger]
            setup.holds(self.s_rescale, env, r, o) <==> mul_gate(
                env.at(r, self.sum.sum, o),
                self.reciprocal@ % modulus(),
                env.at(r, self.q, o),
                env.at(r, self.r, o),
            ) % modulus() == 0
        &&& forall|env: Assignment, r: int, o: int| #[trigger]
            setup.holds(self.s_slack, env, r, o) <==> slack_gate(
                env.at(r, self.r, o),
                env.at(r, self.slack, o),
            ) % modulus() == 0
        &&& self.range_q.ok(setup)
        &&& self.range_r.ok(setup)
        &&& self.range_r_slack.ok(setup)
        &&& setup.cs.linked(self.q)
        &&& setup.cs.linked(self.r)
        &&& setup.cs.linked(self.slack)
    }

    /// The mean that the chip computes of values: their sum times the reciprocal, requantized.
    pub open spec fn mean(self, s: Seq<int>) -> int {
        rescaled(total(s) * self.reciprocal@)
    }
}

/// The mean is the requantized product of a 64-bit sum and the reciprocal; where the values
/// are 64-bit integers, the sum is theirs.
pub open spec fn mean_sound(
    cfg: ReduceMeanConfig,
    env: Assignment,
    mean: AssignedCell,
    values: Seq<AssignedCell>,
) -> bool {
    let vals = cell_raws(env, values);
    let q = env.cell(mean.cell);
    &&& is_shifted(q)
    &&& (forall|i: int| 0 <= i < vals.len() ==> is_i64(#[trigger] vals[i])) ==> is_i64(total(vals))
        && unshifted(q) == cfg.mean(vals)
}

pub struct ReduceMeanChip {
    pub config: ReduceMeanConfig,
}

impl ReduceMeanConfig {
    /// The layout after a mean of `n` numbers.
    pub closed spec fn trace(self, t: Seq<Mark>, n: int) -> Seq<Mark> {
        let sums = self.sum.trace(t, n);
        let region = sums.len() as usize;
        let (link, q, r, slack) = (
            cell_at(sums.len(), self.sum.sum, 0),
            cell_at(sums.len(), self.q, 0),
            cell_at(sums.len(), self.r, 0),
            cell_at(sums.len(), self.slack, 0),
        );
        let main = sums.push(Mark::Region).push(
            Mark::Enable { region, selector: self.s_rescale, offset: 0 },
        ).push(Mark::Enable { region, selector: self.s_slack, offset: 0 }).push(
            Mark::Advice { cell: link },
        ).push(Mark::Advice { cell: q }).push(Mark::Advice { cell: r }).push(
            Mark::Advice { cell: slack },
        );
        let t1 = self.range_q.trace(main);
        let t2 = self.range_r.trace(t1);
        let t3 = self.range_r_slack.trace(t2);
        t3.push(Mark::Region).push(
            Mark::Equal { left: link, right: cell_at(t.len(), self.sum.sum, n - 1) },
        ).push(Mark::Equal { left: q, right: self.range_q.bounded_cell(main) }).push(
            Mark::Equal { left: r, right: self.range_r.bounded_cell(t1) },
        ).push(Mark::Equal { left: slack, right: self.range_r_slack.bounded_cell(t2) })
    }

    /// The cell of the mean.
    pub closed spec fn mean_cell(self, t: Seq<Mark>, n: int) -> Cell {
        cell_at(self.sum.trace(t, n).len(), self.q, 0)
    }
}

impl ReduceMeanChip {
    /// `reciprocal` is the fixed-point number for one over `k`.
    pub fn configure(
        meta: &mut ConstraintSystem,
        values: Column,
        sum: Column,
        sum_shift: Column,
        q: Column,
        r: Column,
        slack: Column,
        bits: Column,
        k: usize,
        reciprocal: I18,
    ) -> (config: ReduceMeanConfig)
        requires
            k >= 1,
        ensures
            config.wf(),
            config.sum.values == values && config.sum.sum == sum && config.sum.sum_shift
                == sum_shift && config.q == q && config.r == r && config.slack == slack
                && config.sum.range_sum.bits == bits && config.sum.k == k && config.reciprocal
                == reciprocal,
            final(meta).same_columns(*old(meta)),
            final(meta).rules@.len() == old(meta).rules@.len() + 13,
            final(meta).extends(*old(meta)),
            forall|setup: Setup|
                setup.cs.extends(*final(meta)) ==> #[trigger] config.ok(setup),
            forall|setup: Setup| #[trigger]
                setup.cs.extends(*final(meta)) ==> setup.rests_between(*old(meta), *final(meta)),
    {
        let sum_config = ReduceSumChip::configure(meta, values, sum, sum_shift, bits, k);
        meta.enable_equality(q);
        meta.enable_equality(r);
        meta.enable_equality(slack);
        let constant = Expression::constant(i64_to_fr(reciprocal.raw()));
        let s_rescale = meta.gate(
            Expression::cell(sum).times(constant).minus(rescale_expression(q)).minus(
                Expression::cell(r),
            ),
        );
        let s_slack = meta.gate(slack_expression(r, slack));
        let range_q = RangeCheckChip::configure(meta, q, bits, SHIFTED_BITS);
        let range_r = RangeCheckChip::configure(meta, r, bits, REMAINDER_BITS);
        let range_r_slack = RangeCheckChip::configure(meta, slack, bits, REMAINDER_BITS);
        let config = ReduceMeanConfig {
            sum: sum_config,
            q,
            r,
            slack,
            s_rescale,
            s_slack,
            range_q,
            range_r,
            range_r_slack,
            reciprocal,
        };
        proof {
            broadcast use group_extends;

            assert forall|setup: Setup| setup.cs.extends(*meta) implies #[trigger] config.ok(
                setup,
            ) by {}
        }
        config
    }

    pub fn construct(config: ReduceMeanConfig) -> (chip: Self)
        ensures
            chip.config == config,
    {
        ReduceMeanChip { config }
    }

    /// Sums the inputs, multiplies the sum by the reciprocal and requantizes. Returns the mean
    /// with its (shifted) cell and the cells of the inputs.
    pub fn assign(&self, layouter: &mut Layouter, inputs: &Vec<I18>) -> (res: (
        I18,
        AssignedCell,
        Vec<AssignedCell>,
    ))
        requires
            self.config.wf(),
            inputs@.len() == self.config.sum.k,
            sums_fit(inputs@),
            is_i64(self.config.mean(raws(inputs@))),
        ensures
            final(layouter).grows(*old(layouter)),
            final(layouter).trace() == self.config.trace(
                old(layouter).trace(),
                inputs@.len() as int,
            ),
            res.1.cell == self.config.mean_cell(old(layouter).trace(), inputs@.len() as int),
            cells_of(res.2@) == column_of(
                old(layouter).trace().len(),
                self.config.sum.values,
                inputs@.len() as int,
            ),
            res.0@ == self.config.mean(raws(inputs@)),
            res.1.cell.column == self.config.q,
            res.1.value@ == res.0@ + SIGNED_SHIFT,
            column_cells(res.2@, old(layouter).next(), self.config.sum.values, inputs@),
            final(layouter).has(res.1),
            forall|i: int| 0 <= i < res.2@.len() ==> final(layouter).has(#[trigger] res.2@[i]),
            forall|setup: Setup, env: Assignment|
                self.config.ok(setup) && #[trigger] final(layouter).sat(setup, env) ==> mean_sound(
                    self.config,
                    env,
                    res.1,
                    res.2@,
                ),
            forall|setup: Setup|
                self.config.ok(setup) && self.config.distinct() && old(layouter).honest(setup)
                    ==> #[trigger] final(layouter).honest(setup),
    {
        broadcast use {lemma_i18_range, lemma_at_range};

        let cfg = self.config;
        let ghost base = *layouter;
        let (sum, sum_cell, value_cells): (I18, AssignedCell, Vec<AssignedCell>) =
            ReduceSumChip::construct(cfg.sum).assign(layouter, inputs);
        let ghost l0 = *layouter;
        let (mean, r): (I18, i128) = requantize_mul(sum, cfg.reciprocal).unwrap();
        let slack: i128 = SCALE_18 - 1 - r;
        let (q_fr, q_raw) = shifted_i64_witness(mean.raw());
        let r_fr = i128_to_fr(r);
        let slack_fr = i128_to_fr(slack);

        let region: usize = layouter.region();
        layouter.enable(region, cfg.s_rescale, 0);
        layouter.enable(region, cfg.s_slack, 0);
        let link_cell = layouter.assign_advice(region, cfg.sum.sum, 0, i64_to_fr(sum.raw()));
        let q_cell = layouter.assign_advice(region, cfg.q, 0, q_fr);
        let r_cell = layouter.assign_advice(region, cfg.r, 0, r_fr);
        let slack_cell = layouter.assign_advice(region, cfg.slack, 0, slack_fr);
        let ghost main = *layouter;

        let rq = RangeCheckChip::construct(cfg.range_q).assign(layouter, q_fr, q_raw);
        let ghost l1 = *layouter;
        let rr = RangeCheckChip::construct(cfg.range_r).assign(layouter, r_fr, r);
        let ghost l2 = *layouter;
        let rs = RangeCheckChip::construct(cfg.range_r_slack).assign(layouter, slack_fr, slack);
        let ghost l3 = *layouter;

        layouter.region();
        layouter.constrain_equal(link_cell.cell, sum_cell.cell);
        layouter.constrain_equal(q_cell.cell, rq.cell);
        layouter.constrain_equal(r_cell.cell, rr.cell);
        layouter.constrain_equal(slack_cell.cell, rs.cell);
        proof {
            lemma_pow_64();
            let g = region as int;
            assert forall|i: int| 0 <= i < value_cells@.len() implies layouter.has(
                #[trigger] value_cells@[i],
            ) by {
                assert(l0.has(value_cells@[i]));
                assert forall|env: Assignment| #[trigger] layouter.agrees(env) implies env.cell(
                    value_cells@[i].cell,
                ) == value_cells@[i].value@ by {
                    assert(l3.agrees(env) && l2.agrees(env) && l1.agrees(env) && main.agrees(env));
                    assert(l0.agrees(env));
                }
            }
            assert forall|setup: Setup, env: Assignment|
                cfg.ok(setup) && #[trigger] layouter.sat(setup, env) implies mean_sound(
                cfg,
                env,
                q_cell,
                value_cells@,
            ) by {
                assert(l3.sat(setup, env) && l2.sat(setup, env) && l1.sat(setup, env));
                assert(main.sat(setup, env));
                assert(l0.sat(setup, env));
                assert(sum_sound(env, sum_cell, value_cells@));
                assert(setup.holds(cfg.s_rescale, env, g, 0));
                assert(setup.holds(cfg.s_slack, env, g, 0));
                let s = env.at(g, cfg.sum.sum, 0);
                assert(s == env.cell(sum_cell.cell));
                let c = cfg.reciprocal@ % modulus();
                crate::field::lemma_centered_of(cfg.reciprocal@);
                lemma_slack_sound(env.at(g, cfg.r, 0), env.at(g, cfg.slack, 0));
                lemma_mul_sound(s, c, env.at(g, cfg.q, 0), env.at(g, cfg.r, 0));
            }
            assert forall|setup: Setup|
                cfg.ok(setup) && cfg.distinct() && base.honest(
                    setup,
                ) implies #[trigger] layouter.honest(setup) by {
                assert(l0.honest(setup));
                assert(main.honest(setup)) by {
                    assert forall|env: Assignment| #[trigger] main.agrees(env) implies main.sat(
                        setup,
                        env,
                    ) by {
                        assert(l0.agrees(env));
                        assert(l0.sat(setup, env));
                        lemma_mul_complete(sum@, cfg.reciprocal@);
                        assert(setup.holds(cfg.s_rescale, env, g, 0));
                        assert(setup.holds(cfg.s_slack, env, g, 0));
                    }
                }
                assert(l1.honest(setup));
                assert(l2.honest(setup));
                assert(l3.honest(setup));
                assert forall|env: Assignment| #[trigger] layouter.agrees(
                    env,
                ) implies layouter.sat(setup, env) by {
                    assert(l3.agrees(env) && l2.agrees(env) && l1.agrees(env) && main.agrees(env));
                    assert(l0.agrees(env));
                    assert(l3.sat(setup, env));
                }
            }
        }
        (mean, q_cell, value_cells)
    }
}

/// Sums add up: numbers written one after the other sum to the sum of the parts, in either order,
/// a single number sums to itself, and no number to zero.
pub proof fn lemma_total_adds(s: Seq<int>, t: Seq<int>, x: int)
    ensures
        total(s + t) == total(s) + total(t),
        total(s + t) == total(t + s),
        total(seq![x]) == x,
        total(Seq::<int>::empty()) == 0,
{
    lemma_total_concat(s, t);
    lemma_total_concat(t, s);
    assert(seq![x].drop_last() =~= Seq::<int>::empty());
    reveal_with_fuel(total, 2);
}

pub(crate) proof fn lemma_total_concat(s: Seq<int>, t: Seq<int>)
    ensures
        total(s + t) == total(s) + total(t),
    decreases t.len(),
{
    if t.len() == 0 {
        assert(s + t =~= s);
    } else {
        lemma_total_concat(s, t.drop_last());
        assert((s + t).drop_last() =~= s + t.drop_last());
    }
}

/// Every number has its raw value, in its place.
pub proof fn lemma_raws(s: Seq<I18>)
    ensures
        raws(s).len() == s.len(),
        forall|i: int| 0 <= i < s.len() ==> #[trigger] raws(s)[i] == s[i]@,
{
}

/// Numbers without a sign whose sum is in range can be summed: no partial sum is above the whole.
pub proof fn lemma_totals_fit(s: Seq<int>)
    requires
        forall|i: int| 0 <= i < s.len() ==> #[trigger] s[i] >= 0,
        total(s) <= i64::MAX,
    ensures
        totals_fit(s),
{
    assert forall|i: int| 0 <= i <= s.len() implies is_i64(total(#[trigger] s.take(i))) by {
        assert(s.take(i) + s.skip(i) =~= s);
        lemma_total_concat(s.take(i), s.skip(i));
        lemma_total_positive(s.take(i));
        lemma_total_positive(s.skip(i));
    }
}

proof fn lemma_total_positive(s: Seq<int>)
    requires
        forall|i: int| 0 <= i < s.len() ==> #[trigger] s[i] >= 0,
    ensures
        total(s) >= 0,
    decreases s.len(),
{
    if s.len() > 0 {
        let rest = s.drop_last();
        assert forall|i: int| 0 <= i < rest.len() implies #[trigger] rest[i] >= 0 by {
            assert(rest[i] == s[i]);
        }
        lemma_total_positive(rest);
        assert(s[s.len() - 1] >= 0);
    }
}

/// The mean is the sum times the reciprocal, rounded down to a multiple of the scale.
pub proof fn lemma_mean_rounds_down(config: ReduceMeanConfig, s: Seq<int>)
    ensures
        config.mean(s) * 1_000_000_000_000_000_000 <= total(s) * config.reciprocal@,
        total(s) * config.reciprocal@ < (config.mean(s) + 1) * 1_000_000_000_000_000_000,
{
    crate::fixed_point::lemma_rescale_rounds_down(total(s) * config.reciprocal@);
}

} // verus!
