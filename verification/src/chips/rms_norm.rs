//! Root-mean-square normalization over a fixed count of numbers with a learned scale for each:
//!
//! ```text
//! mean_sq  = (1/k) * sum_i x_i^2
//! output_i = x_i * rsqrt(mean_sq + epsilon) * weight_i
//! ```
//!
//! Inputs and weights come from elsewhere. Each is witnessed once in an anchor cell, to which
//! every row that uses it is linked and which a caller can link to the value's source.
use vstd::prelude::*;
use vstd::string::*;

use crate::chips::bridge::{
    all_bridged, all_in, all_linked, all_multiplied, bridged, configure_bridge, hold_raw,
    hold_shifted, lemma_hold, multiply_each, multiply_laid, unshift_each, BridgeConfig,
};
use crate::chips::eltwise::{
    load_mul_operand_range_table, EltwiseAddChip, EltwiseAddConfig, EltwiseMulChip,
    EltwiseMulConfig,
};
use crate::chips::layer_norm::{
    all_i64, all_scaled, assign_root, repeated, root_sound, scaled, scale_each, shifted_raws,
    squares, RootConfig, RsqrtChip, RsqrtConfig,
};
use crate::chips::lookup::{is_function_row, value_at, LookupError};
use crate::chips::offset::{configure_offset, OffsetConfig};
use crate::chips::reduce::{
    cell_raws, lemma_total_step, raws, total, totals_fit, ReduceMeanChip, ReduceMeanConfig,
};
use crate::field::{centered, modulus};
use crate::field_convert::{i64_to_fr, is_shifted, unshifted};
use crate::fixed_point::{is_i64, lemma_i18_range, requantize_mul, rescaled, I18};
use crate::layout::{cell_at, cells_of, AssignedCell, Cell, Laid, Layouter, Mark};
use crate::plonk::{group_extends, Assignment, Column, ConstraintSystem, Setup};
use crate::text::{decimal, unsigned_text};

verus! {

#[derive(Debug)]
pub enum RmsNormError {
    /// The inputs or the weights do not have the configured count.
    InputCountMismatch { expected: usize, got: usize },
    /// Synthesis failed.
    Synthesis(String),
    /// `mean_sq + epsilon` is not a point of the lookup's domain.
    Rsqrt(LookupError),
}

impl RmsNormError {
    pub open spec fn text(self) -> Seq<char> {
        match self {
            RmsNormError::InputCountMismatch { expected, got } => "rms norm expects "@ + decimal(
                expected as int,
            ) + " inputs (k), got "@ + decimal(got as int),
            RmsNormError::Synthesis(e) => "rms norm synthesis error: "@ + e@,
            RmsNormError::Rsqrt(e) => "rms norm rsqrt lookup failed: "@ + e.text(),
        }
    }

    /// The text of the error.
    pub fn message(&self) -> (r: String)
        ensures
            r@ == self.text(),
    {
        match self {
            RmsNormError::InputCountMismatch { expected, got } => {
                let mut r = String::from_str("rms norm expects ");
                r.append(unsigned_text(*expected as u128).as_str());
                r.append(" inputs (k), got ");
                r.append(unsigned_text(*got as u128).as_str());
                r
            },
            RmsNormError::Synthesis(e) => {
                let mut r = String::from_str("rms norm synthesis error: ");
                r.append(e.as_str());
                r
            },
            RmsNormError::Rsqrt(e) => {
                let mut r = String::from_str("rms norm rsqrt lookup failed: ");
                r.append(e.message().as_str());
                r
            },
        }
    }
}

#[derive(Clone, Copy, Debug)]
pub struct RmsNormConfig {
    pub reduce_mean: ReduceMeanConfig,
    pub add: EltwiseAddConfig,
    pub mul: EltwiseMulConfig,
    pub rsqrt: RsqrtConfig,
    pub k: usize,
    pub epsilon: I18,
    pub x_anchor: Column,
    pub weight_anchor: Column,
    pub unshift: BridgeConfig,
    /// Fixes the second summand of `mean_sq + epsilon`.
    pub offset: OffsetConfig,
}

/// The requantized products of two sequences.
pub open spec fn multiplied(s: Seq<int>, t: Seq<int>) -> Seq<int> {
    Seq::new(s.len(), |i: int| rescaled(s[i] * t[i]))
}

impl RmsNormConfig {
    pub open spec fn wf(self) -> bool {
        &&& self.reduce_mean.wf() && self.reduce_mean.sum.k == self.k
        &&& self.add.wf()
        &&& self.mul.wf()
        &&& self.rsqrt.lookup.wf()
        &&& self.rsqrt.lookup.table_input != self.mul.range_a.table
        &&& self.rsqrt.lookup.table_input != self.mul.range_b.table
        &&& self.rsqrt.lookup.table_output != self.mul.range_a.table
        &&& self.rsqrt.lookup.table_output != self.mul.range_b.table
        &&& self.offset.value == self.epsilon
    }

    pub open spec fn distinct(self) -> bool {
        &&& self.reduce_mean.distinct()
        &&& self.add.distinct()
        &&& self.mul.distinct()
        &&& self.rsqrt.lookup.input != self.rsqrt.lookup.output
        &&& self.x_anchor != self.weight_anchor
        &&& self.unshift.distinct()
    }

    pub open spec fn rules(self, setup: Setup) -> bool {
        &&& self.reduce_mean.ok(setup)
        &&& self.add.ok(setup)
        &&& self.mul.rules(setup)
        &&& self.rsqrt.lookup.rules(setup)
        &&& self.unshift.ok(setup)
        &&& self.offset.ok(setup)
        &&& setup.cs.linked(self.x_anchor)
        &&& setup.cs.linked(self.weight_anchor)
    }

    /// The tables of the lookup and of the operand checks are loaded.
    pub open spec fn loaded(self, setup: Setup, domain: Seq<(I18, I18)>) -> bool {
        self.mul.loaded(setup) && self.rsqrt.lookup.loaded(setup, domain)
    }

    pub open spec fn ok(self, setup: Setup, domain: Seq<(I18, I18)>) -> bool {
        self.rules(setup) && self.loaded(setup, domain)
    }

    /// Rows that a lookup of the chip is off at satisfy it.
    pub open spec fn rests(self, setup: Setup) -> bool {
        self.mul.rests(setup) && setup.rests(self.rsqrt.lookup.selector)
    }

    pub proof fn lemma_rests(self, setup: Setup, domain: Seq<(I18, I18)>)
        requires
            self.ok(setup, domain),
        ensures
            self.rests(setup),
    {
        self.mul.lemma_rests(setup);
        self.rsqrt.lookup.lemma_rests(setup, domain);
    }

    /// The mean of the squares.
    pub open spec fn mean_square(self, xs: Seq<int>) -> int {
        self.reduce_mean.mean(squares(xs))
    }

    /// The normalized and weighted values for a reciprocal square root.
    pub open spec fn normalized(self, xs: Seq<int>, ws: Seq<int>, v: int) -> Seq<int> {
        multiplied(scaled(xs, v), ws)
    }

    /// No step of the normalization leaves the range of 64-bit integers.
    pub open spec fn fits(self, domain: Seq<(I18, I18)>, xs: Seq<int>, ws: Seq<int>) -> bool {
        &&& all_i64(squares(xs))
        &&& totals_fit(squares(xs))
        &&& is_i64(self.mean_square(xs))
        &&& is_i64(self.mean_square(xs) + self.epsilon@)
        &&& value_at(domain, self.mean_square(xs) + self.epsilon@) matches Some(v) ==> all_i64(
            scaled(xs, v@),
        ) && all_i64(self.normalized(xs, ws, v@))
    }

    /// What a satisfied layout proves of inputs, weights and outputs: the outputs are the
    /// normalized and weighted inputs, for a reciprocal square root that the table gives at the
    /// mean square plus epsilon.
    pub open spec fn proves(
        self,
        domain: Seq<(I18, I18)>,
        xs: Seq<int>,
        ws: Seq<int>,
        outs: Seq<int>,
    ) -> bool {
        &&& all_i64(xs)
        &&& all_i64(ws)
        &&& all_i64(outs)
        &&& exists|v: int| #[trigger]
            is_function_row(domain, self.mean_square(xs) + self.epsilon@, v) && outs
                == self.normalized(xs, ws, v)
    }
}

/// The outputs with their shifted cells, and the anchor cells of inputs and weights.
#[derive(Debug)]
pub struct RmsNormOutput {
    pub outputs: Vec<I18>,
    pub output_cells: Vec<AssignedCell>,
    pub input_cells: Vec<AssignedCell>,
    pub weight_cells: Vec<AssignedCell>,
}

/// The layout after `n` pairs, each in a region of its own.
pub closed spec fn anchors_trace(t: Seq<Mark>, x_anchor: Column, weight_anchor: Column, n: int) -> Seq<
    Mark,
>
    decreases n,
{
    if n <= 0 {
        t
    } else {
        let before = anchors_trace(t, x_anchor, weight_anchor, n - 1);
        before.push(Mark::Region).push(
            Mark::Advice { cell: cell_at(before.len(), x_anchor, 0) },
        ).push(Mark::Advice { cell: cell_at(before.len(), weight_anchor, 0) })
    }
}

/// The cells of `n` pairs in one of their columns.
pub closed spec fn anchor_cells(
    t: Seq<Mark>,
    x_anchor: Column,
    weight_anchor: Column,
    column: Column,
    n: int,
) -> Seq<Cell>
    decreases n,
{
    if n <= 0 {
        Seq::empty()
    } else {
        anchor_cells(t, x_anchor, weight_anchor, column, n - 1).push(
            cell_at(anchors_trace(t, x_anchor, weight_anchor, n - 1).len(), column, 0),
        )
    }
}

impl RmsNormConfig {
    /// The anchors of the inputs.
    pub closed spec fn input_anchors(self, t: Seq<Mark>) -> Seq<Cell> {
        anchor_cells(t, self.x_anchor, self.weight_anchor, self.x_anchor, self.k as int)
    }

    /// The anchors of the weights.
    pub closed spec fn weight_anchors(self, t: Seq<Mark>) -> Seq<Cell> {
        anchor_cells(t, self.x_anchor, self.weight_anchor, self.weight_anchor, self.k as int)
    }

    /// The layout after a normalization, with the cells of its outputs.
    pub closed spec fn laid(self, t: Seq<Mark>) -> Laid {
        let k = self.k as int;
        let xs = self.input_anchors(t);
        let anchors = anchors_trace(t, self.x_anchor, self.weight_anchor, k);
        let squares = multiply_laid(self.mul, anchors, xs, xs, k);
        let root = (RootConfig {
            mean: self.reduce_mean,
            add: self.add,
            unshift: self.unshift,
            lookup: self.rsqrt.lookup,
            offset: self.offset,
        }).root_laid(squares.trace, squares.cells);
        let normed = multiply_laid(self.mul, root.trace, xs, repeated(root.cells[0], k), k);
        let raw = self.unshift.unshift_laid(normed.trace, normed.cells, k);
        multiply_laid(self.mul, raw.trace, raw.cells, self.weight_anchors(t), k)
    }
}

/// Witnesses two vectors, a pair in each row of its own.
fn anchor_each(
    x_anchor: Column,
    weight_anchor: Column,
    layouter: &mut Layouter,
    xs: &Vec<I18>,
    ws: &Vec<I18>,
) -> (res: (Vec<AssignedCell>, Vec<AssignedCell>))
    requires
        xs@.len() == ws@.len(),
    ensures
        final(layouter).grows(*old(layouter)),
        final(layouter).trace() == anchors_trace(
            old(layouter).trace(),
            x_anchor,
            weight_anchor,
            xs@.len() as int,
        ),
        cells_of(res.0@) == anchor_cells(
            old(layouter).trace(),
            x_anchor,
            weight_anchor,
            x_anchor,
            xs@.len() as int,
        ),
        cells_of(res.1@) == anchor_cells(
            old(layouter).trace(),
            x_anchor,
            weight_anchor,
            weight_anchor,
            xs@.len() as int,
        ),
        hold_raw(*final(layouter), res.0@, xs@),
        hold_raw(*final(layouter), res.1@, ws@),
        all_in(res.0@, x_anchor),
        all_in(res.1@, weight_anchor),
        forall|setup: Setup|
            x_anchor != weight_anchor && old(layouter).honest(setup)
                ==> #[trigger] final(layouter).honest(setup),
{
    let ghost base = *layouter;
    let mut x_cells: Vec<AssignedCell> = Vec::new();
    let mut w_cells: Vec<AssignedCell> = Vec::new();
    assert(cells_of(x_cells@) =~= Seq::<Cell>::empty());
    assert(cells_of(w_cells@) =~= Seq::<Cell>::empty());
    let mut i: usize = 0;
    while i < xs.len()
        invariant
            i <= xs@.len(),
            xs@.len() == ws@.len(),
            layouter.grows(base),
            layouter.trace() == anchors_trace(base.trace(), x_anchor, weight_anchor, i as int),
            cells_of(x_cells@) == anchor_cells(
                base.trace(),
                x_anchor,
                weight_anchor,
                x_anchor,
                i as int,
            ),
            cells_of(w_cells@) == anchor_cells(
                base.trace(),
                x_anchor,
                weight_anchor,
                weight_anchor,
                i as int,
            ),
            x_cells@.len() == i,
            w_cells@.len() == i,
            all_in(x_cells@, x_anchor),
            all_in(w_cells@, weight_anchor),
            forall|j: int|
                0 <= j < i ==> layouter.has(#[trigger] x_cells@[j]) && x_cells@[j].value@
                    == xs@[j]@ % modulus(),
            forall|j: int|
                0 <= j < i ==> layouter.has(#[trigger] w_cells@[j]) && w_cells@[j].value@
                    == ws@[j]@ % modulus(),
            forall|setup: Setup|
                x_anchor != weight_anchor && base.honest(setup)
                    ==> #[trigger] layouter.honest(setup),
        decreases xs@.len() - i,
    {
        let ghost before = *layouter;
        let region: usize = layouter.region();
        let xc = layouter.assign_advice(region, x_anchor, 0, i64_to_fr(xs[i].raw()));
        let wc = layouter.assign_advice(region, weight_anchor, 0, i64_to_fr(ws[i].raw()));
        proof {
            assert(layouter.grows(before));
            lemma_hold(*layouter, before, x_cells@);
            lemma_hold(*layouter, before, w_cells@);
            assert forall|setup: Setup|
                x_anchor != weight_anchor && base.honest(
                    setup,
                ) implies #[trigger] layouter.honest(setup) by {
                assert(before.honest(setup));
                assert forall|env: Assignment| #[trigger] layouter.agrees(
                    env,
                ) implies layouter.sat(setup, env) by {
                    assert(before.agrees(env));
                }
            }
        }
        let ghost (px, pw) = (x_cells@, w_cells@);
        x_cells.push(xc);
        w_cells.push(wc);
        assert(cells_of(x_cells@) =~= cells_of(px).push(xc.cell));
        assert(cells_of(w_cells@) =~= cells_of(pw).push(wc.cell));
        proof {
            assert forall|j: int| 0 <= j < i + 1 implies layouter.has(#[trigger] x_cells@[j])
                && x_cells@[j].value@ == xs@[j]@ % modulus() by {
                if j < i {
                    assert(layouter.has(px[j]));
                }
            }
            assert forall|j: int| 0 <= j < i + 1 implies layouter.has(#[trigger] w_cells@[j])
                && w_cells@[j].value@ == ws@[j]@ % modulus() by {
                if j < i {
                    assert(layouter.has(pw[j]));
                }
            }
        }
        i += 1;
    }
    (x_cells, w_cells)
}

pub struct RmsNormChip {
    pub config: RmsNormConfig,
    pub rsqrt_chip: RsqrtChip,
}

impl RmsNormChip {
    /// The chip's configuration is well formed and its lookup is the configured one.
    pub open spec fn wf(self) -> bool {
        self.config.wf() && self.rsqrt_chip.inner.config == self.config.rsqrt.lookup
    }

    pub open spec fn domain(self) -> Seq<(I18, I18)> {
        self.rsqrt_chip.inner.domain@
    }

    pub open spec fn ok(self, setup: Setup) -> bool {
        self.config.ok(setup, self.domain())
    }

    /// `reciprocal` is the fixed-point number for one over `k`, and `epsilon` the offset of the
    /// mean square.
    pub fn configure(
        meta: &mut ConstraintSystem,
        values: Column,
        sum: Column,
        sum_shift: Column,
        mean_q: Column,
        mean_r: Column,
        mean_slack: Column,
        add_a: Column,
        add_b: Column,
        add_c: Column,
        mul_a: Column,
        mul_b: Column,
        mul_q: Column,
        mul_r: Column,
        mul_slack: Column,
        bits: Column,
        rsqrt_input: Column,
        rsqrt_output: Column,
        x_anchor: Column,
        weight_anchor: Column,
        unshift_in: Column,
        unshift_out: Column,
        k: usize,
        reciprocal: I18,
        epsilon: I18,
    ) -> (config: RmsNormConfig)
        requires
            k >= 1,
            old(meta).advice + 2 <= usize::MAX,
            old(meta).tables + 4 <= usize::MAX,
        ensures
            config.wf(),
            config.k == k && config.epsilon == epsilon && config.reduce_mean.reciprocal
                == reciprocal,
            config.reduce_mean.sum.values == values && config.reduce_mean.sum.sum == sum
                && config.reduce_mean.sum.sum_shift == sum_shift && config.reduce_mean.q == mean_q
                && config.reduce_mean.r == mean_r && config.reduce_mean.slack == mean_slack
                && config.reduce_mean.sum.range_sum.bits == bits,
            config.add.a == add_a && config.add.b == add_b && config.add.c == add_c
                && config.add.range_a.bits == bits,
            config.mul.a == mul_a && config.mul.b == mul_b && config.mul.q == mul_q && config.mul.r
                == mul_r && config.mul.slack == mul_slack && config.mul.range_a.limbs == bits,
            config.mul.a_shift.index == old(meta).advice && config.mul.b_shift.index == old(meta).advice
                + 1,
            config.mul.a_shift.kind is Advice && config.mul.b_shift.kind is Advice,
            config.mul.range_a.table.0 == old(meta).tables,
            config.mul.range_b.table.0 == old(meta).tables + 1,
            config.rsqrt.lookup.table_input.0 == old(meta).tables + 2,
            config.rsqrt.lookup.table_output.0 == old(meta).tables + 3,
            config.rsqrt.lookup.input == rsqrt_input && config.rsqrt.lookup.output == rsqrt_output,
            config.x_anchor == x_anchor && config.weight_anchor == weight_anchor,
            config.unshift.shifted == unshift_in && config.unshift.unshifted == unshift_out,
            config.offset.column == add_b,
            final(meta).advice == old(meta).advice + 2,
            final(meta).tables == old(meta).tables + 4,
            final(meta).fixed == old(meta).fixed,
            final(meta).instance == old(meta).instance,
            final(meta).constants@ == old(meta).constants@,
            final(meta).rules@.len() == old(meta).rules@.len() + 36,
            final(meta).extends(*old(meta)),
            forall|setup: Setup|
                setup.cs.extends(*final(meta)) ==> #[trigger] config.rules(setup),
            forall|setup: Setup, domain: Seq<(I18, I18)>|
                #![trigger setup.cs.extends(*final(meta)), config.loaded(setup, domain)]
                setup.cs.extends(*final(meta)) && config.loaded(setup, domain)
                    ==> setup.rests_between(*old(meta), *final(meta)),
    {
        let reduce_mean = ReduceMeanChip::configure(
            meta,
            values,
            sum,
            sum_shift,
            mean_q,
            mean_r,
            mean_slack,
            bits,
            k,
            reciprocal,
        );
        let add = EltwiseAddChip::configure(meta, add_a, add_b, add_c, bits);
        let mul = EltwiseMulChip::configure(meta, mul_a, mul_b, mul_q, mul_r, mul_slack, bits);
        let rsqrt = RsqrtChip::configure(meta, rsqrt_input, rsqrt_output);
        meta.enable_equality(x_anchor);
        meta.enable_equality(weight_anchor);
        let unshift = configure_bridge(meta, unshift_in, unshift_out);
        let offset = configure_offset(meta, add_b, epsilon);
        let config = RmsNormConfig {
            reduce_mean,
            add,
            mul,
            rsqrt,
            k,
            epsilon,
            x_anchor,
            weight_anchor,
            unshift,
            offset,
        };
        proof {
            broadcast use group_extends;

            assert forall|setup: Setup| setup.cs.extends(*meta) implies #[trigger] config.rules(
                setup,
            ) by {}
        }
        config
    }

    /// A chip whose reciprocal square roots are `values[i]` at `domain[i]`.
    pub fn construct(config: RmsNormConfig, domain: Vec<I18>, values: Vec<I18>) -> (chip: Self)
        requires
            domain@.len() == values@.len(),
        ensures
            chip.config == config,
            chip.rsqrt_chip.inner.config == config.rsqrt.lookup,
            chip.domain().len() == domain@.len(),
            forall|i: int|
                0 <= i < domain@.len() ==> #[trigger] chip.domain()[i] == (domain@[i], values@[i]),
    {
        RmsNormChip { config, rsqrt_chip: RsqrtChip::construct(config.rsqrt, domain, values) }
    }

    /// Loads the tables of the lookup and of the operand checks. Called once in a synthesis.
    pub fn load_table(&self, layouter: &mut Layouter)
        requires
            self.wf(),
            (old(layouter).tables())(self.config.rsqrt.lookup.table_input.0 as int).len() == 0,
            (old(layouter).tables())(self.config.rsqrt.lookup.table_output.0 as int).len() == 0,
            (old(layouter).tables())(self.config.mul.range_a.table.0 as int).len() == 0,
            (old(layouter).tables())(self.config.mul.range_b.table.0 as int).len() == 0,
        ensures
            final(layouter).only_loads(*old(layouter)),
            final(layouter).trace() == self.tables_trace(old(layouter).trace()),
            forall|setup: Setup|
                (forall|t: int| #[trigger]
                    (setup.tables)(t) == (final(layouter).tables())(t) || !self.uses_table(t))
                    ==> #[trigger] self.config.loaded(setup, self.domain()),
            forall|t: int|
                !self.uses_table(t) ==> #[trigger] (final(layouter).tables())(t) == (old(
                    layouter,
                ).tables())(t),
    {
        self.rsqrt_chip.load_table(layouter);
        load_mul_operand_range_table(&self.config.mul, layouter);
        proof {
            let l = *layouter;
            assert forall|setup: Setup|
                (forall|t: int| #[trigger]
                    (setup.tables)(t) == (l.tables())(t) || !self.uses_table(
                        t,
                    )) implies #[trigger] self.config.loaded(setup, self.domain()) by {
                assert(self.uses_table(self.config.mul.range_a.table.0 as int));
                assert(self.uses_table(self.config.mul.range_b.table.0 as int));
                assert(self.uses_table(self.config.rsqrt.lookup.table_input.0 as int));
                assert(self.uses_table(self.config.rsqrt.lookup.table_output.0 as int));
            }
        }
    }

    /// The layout after the chip's tables.
    pub closed spec fn tables_trace(self, t: Seq<Mark>) -> Seq<Mark> {
        self.config.mul.tables_trace(
            self.rsqrt_chip.inner.config.table_trace(t, self.rsqrt_chip.inner.domain@),
        )
    }

    /// The chip's tables.
    pub open spec fn uses_table(self, t: int) -> bool {
        ||| t == self.config.rsqrt.lookup.table_input.0
        ||| t == self.config.rsqrt.lookup.table_output.0
        ||| t == self.config.mul.range_a.table.0
        ||| t == self.config.mul.range_b.table.0
    }

    /// Whether no step of the normalization leaves the range of 64-bit integers.
    pub fn in_range(&self, inputs: &Vec<I18>, weight: &Vec<I18>) -> (r: bool)
        requires
            inputs@.len() == weight@.len(),
        ensures
            r == self.config.fits(self.domain(), raws(inputs@), raws(weight@)),
    {
        let ghost xs = raws(inputs@);
        let ghost ws = raws(weight@);
        let ghost sqs = squares(xs);
        let mut sum: i64 = 0;
        let mut i: usize = 0;
        assert(sqs.take(0) =~= Seq::empty());
        while i < inputs.len()
            invariant
                i <= inputs@.len(),
                xs == raws(inputs@),
                sqs == squares(xs),
                sum as int == total(sqs.take(i as int)),
                forall|j: int| 0 <= j < i ==> is_i64(#[trigger] sqs[j]),
                forall|j: int| 0 <= j <= i ==> is_i64(total(#[trigger] sqs.take(j))),
            decreases inputs@.len() - i,
        {
            proof {
                lemma_total_step(sqs, i as int);
            }
            assert(xs[i as int] == inputs@[i as int]@);
            match requantize_mul(inputs[i], inputs[i]) {
                Ok((sq, _)) => {
                    match sum.checked_add(sq.raw()) {
                        Some(next) => {
                            sum = next;
                        },
                        None => {
                            assert(!is_i64(total(sqs.take(i + 1))));
                            return false;
                        },
                    }
                },
                Err(_) => {
                    assert(!is_i64(sqs[i as int]));
                    return false;
                },
            }
            i += 1;
        }
        assert(sqs.take(sqs.len() as int) =~= sqs);
        let mean = match requantize_mul(
            I18::from_raw(sum),
            self.config.reduce_mean.reciprocal,
        ) {
            Ok((mean, _)) => mean,
            Err(_) => {
                return false;
            },
        };
        proof {
            lemma_i18_range(mean);
        }
        let at: i64 = match mean.raw().checked_add(self.config.epsilon.raw()) {
            Some(at) => at,
            None => {
                return false;
            },
        };
        let v = match self.rsqrt_chip.inner.find(I18::from_raw(at)) {
            Some(v) => v,
            None => {
                return true;
            },
        };
        let mut j: usize = 0;
        while j < inputs.len()
            invariant
                j <= inputs@.len(),
                inputs@.len() == weight@.len(),
                xs == raws(inputs@),
                ws == raws(weight@),
                value_at(
                    self.domain(),
                    self.config.mean_square(xs) + self.config.epsilon@,
                ) == Some(v),
                forall|t: int| 0 <= t < j ==> is_i64(#[trigger] scaled(xs, v@)[t]),
                forall|t: int|
                    0 <= t < j ==> is_i64(#[trigger] self.config.normalized(xs, ws, v@)[t]),
            decreases inputs@.len() - j,
        {
            assert(xs[j as int] == inputs@[j as int]@);
            assert(ws[j as int] == weight@[j as int]@);
            match requantize_mul(inputs[j], v) {
                Ok((n, _)) => {
                    assert(n@ == scaled(xs, v@)[j as int]);
                    match requantize_mul(n, weight[j]) {
                        Ok(_) => {},
                        Err(_) => {
                            assert(!is_i64(self.config.normalized(xs, ws, v@)[j as int]));
                            return false;
                        },
                    }
                },
                Err(_) => {
                    assert(!is_i64(scaled(xs, v@)[j as int]));
                    return false;
                },
            }
            j += 1;
        }
        true
    }

    /// Whatever satisfies the layout has normalized and weighted inputs in the output cells.
    pub open spec fn sound(
        self,
        l: Layouter,
        ins: Seq<AssignedCell>,
        weights: Seq<AssignedCell>,
        outs: Seq<AssignedCell>,
    ) -> bool {
        forall|setup: Setup, env: Assignment|
            self.ok(setup) && #[trigger] l.sat(setup, env) ==> self.config.proves(
                self.domain(),
                cell_raws(env, ins),
                cell_raws(env, weights),
                shifted_raws(env, outs),
            )
    }

    /// Lays the normalization out and returns its outputs with every cell that a caller needs
    /// to link inputs, weights and outputs elsewhere.
    pub fn assign(&self, layouter: &mut Layouter, inputs: &Vec<I18>, weight: &Vec<I18>) -> (res:
        Result<RmsNormOutput, RmsNormError>)
        requires
            self.wf(),
            inputs@.len() == self.config.k && weight@.len() == self.config.k ==> self.config.fits(
                self.domain(),
                raws(inputs@),
                raws(weight@),
            ),
        ensures
            final(layouter).grows(*old(layouter)),
            inputs@.len() != self.config.k ==> *final(layouter) == *old(layouter) && (res
                matches Err(RmsNormError::InputCountMismatch { expected, got }) && expected
                == self.config.k && got == inputs@.len()),
            inputs@.len() == self.config.k && weight@.len() != self.config.k
                ==> *final(layouter) == *old(layouter) && (res matches Err(
                RmsNormError::InputCountMismatch { expected, got },
            ) && expected == self.config.k && got == weight@.len()),
            inputs@.len() == self.config.k && weight@.len() == self.config.k ==> match value_at(
                self.domain(),
                self.config.mean_square(raws(inputs@)) + self.config.epsilon@,
            ) {
                Some(v) => res matches Ok(out) && {
                    &&& raws(out.outputs@) == self.config.normalized(
                        raws(inputs@),
                        raws(weight@),
                        v@,
                    )
                    &&& (Laid {
                        trace: final(layouter).trace(),
                        cells: cells_of(out.output_cells@),
                    }) == self.config.laid(old(layouter).trace())
                    &&& cells_of(out.input_cells@) == self.config.input_anchors(
                        old(layouter).trace(),
                    )
                    &&& cells_of(out.weight_cells@) == self.config.weight_anchors(
                        old(layouter).trace(),
                    )
                    &&& hold_shifted(*final(layouter), out.output_cells@, out.outputs@)
                    &&& all_in(out.output_cells@, self.config.mul.q)
                    &&& hold_raw(*final(layouter), out.input_cells@, inputs@)
                    &&& all_in(out.input_cells@, self.config.x_anchor)
                    &&& hold_raw(*final(layouter), out.weight_cells@, weight@)
                    &&& all_in(out.weight_cells@, self.config.weight_anchor)
                    &&& self.sound(
                        *final(layouter),
                        out.input_cells@,
                        out.weight_cells@,
                        out.output_cells@,
                    )
                    &&& forall|setup: Setup|
                        self.ok(setup) && self.config.distinct() && old(layouter).honest(setup)
                            ==> #[trigger] final(layouter).honest(setup)
                },
                None => res matches Err(RmsNormError::Rsqrt(LookupError::InputNotInDomain(x)))
                    && x@ == self.config.mean_square(raws(inputs@)) + self.config.epsilon@,
            },
    {
        let cfg = self.config;
        let k: usize = cfg.k;
        if inputs.len() != k {
            return Err(RmsNormError::InputCountMismatch { expected: k, got: inputs.len() });
        }
        if weight.len() != k {
            return Err(RmsNormError::InputCountMismatch { expected: k, got: weight.len() });
        }
        let ghost base = *layouter;
        let ghost domain = self.domain();
        let ghost xs = raws(inputs@);
        let ghost ws = raws(weight@);
        let (x_cells, w_cells): (Vec<AssignedCell>, Vec<AssignedCell>) = anchor_each(
            cfg.x_anchor,
            cfg.weight_anchor,
            layouter,
            inputs,
            weight,
        );
        let ghost l1 = *layouter;
        proof {
            assert forall|i: int| 0 <= i < inputs@.len() implies is_i64(
                rescaled((#[trigger] inputs@[i])@ * inputs@[i]@),
            ) by {
                assert(is_i64(squares(xs)[i]));
            }
        }
        let (sqs, sq_cells): (Vec<I18>, Vec<AssignedCell>) = multiply_each(
            &cfg.mul,
            layouter,
            inputs,
            &x_cells,
            inputs,
            &x_cells,
        );
        let ghost l2 = *layouter;
        assert(raws(sqs@) =~= squares(xs));
        let root_cfg = RootConfig {
            mean: cfg.reduce_mean,
            add: cfg.add,
            unshift: cfg.unshift,
            lookup: cfg.rsqrt.lookup,
            offset: cfg.offset,
        };
        let (root, root_cell): (I18, AssignedCell) = match assign_root(
            &root_cfg,
            &self.rsqrt_chip,
            layouter,
            &sqs,
            &sq_cells,
        ) {
            Ok(v) => v,
            Err(e) => {
                return Err(RmsNormError::Rsqrt(e));
            },
        };
        let ghost l3 = *layouter;
        proof {
            assert(l3.grows(l1));
            lemma_hold(l3, l1, x_cells@);
        }
        let (normed, normed_cells): (Vec<I18>, Vec<AssignedCell>) = scale_each(
            &cfg.mul,
            layouter,
            inputs,
            &x_cells,
            root,
            root_cell,
        );
        let ghost l4 = *layouter;
        assert(raws(normed@).len() == normed@.len());
        let raw_cells = unshift_each(&cfg.unshift, layouter, &normed_cells, &normed);
        let ghost l5 = *layouter;
        proof {
            assert(l5.grows(l1));
            lemma_hold(l5, l1, w_cells@);
            assert forall|i: int| 0 <= i < normed@.len() implies is_i64(
                rescaled((#[trigger] normed@[i])@ * weight@[i]@),
            ) by {
                assert(is_i64(cfg.normalized(xs, ws, root@)[i]));
                assert(raws(normed@)[i] == scaled(xs, root@)[i]);
            }
        }
        let (outs, out_cells): (Vec<I18>, Vec<AssignedCell>) = multiply_each(
            &cfg.mul,
            layouter,
            &normed,
            &raw_cells,
            weight,
            &w_cells,
        );
        proof {
            assert(layouter.grows(l1));
            lemma_hold(*layouter, l1, x_cells@);
            lemma_hold(*layouter, l1, w_cells@);
            assert(raws(outs@) =~= cfg.normalized(xs, ws, root@)) by {
                assert forall|i: int| 0 <= i < outs@.len() implies #[trigger] raws(outs@)[i]
                    == cfg.normalized(xs, ws, root@)[i] by {
                    assert(raws(normed@)[i] == scaled(xs, root@)[i]);
                }
            }
            assert forall|setup: Setup, env: Assignment|
                self.ok(setup) && #[trigger] layouter.sat(setup, env) implies cfg.proves(
                domain,
                cell_raws(env, x_cells@),
                cell_raws(env, w_cells@),
                shifted_raws(env, out_cells@),
            ) by {
                assert(l5.sat(setup, env) && l4.sat(setup, env) && l3.sat(setup, env));
                assert(l2.sat(setup, env) && l1.sat(setup, env));
                assert(all_multiplied(env, x_cells@, x_cells@, sq_cells@));
                assert(all_scaled(env, x_cells@, root_cell, normed_cells@));
                assert(all_bridged(env, raw_cells@, normed_cells@));
                assert(all_multiplied(env, raw_cells@, w_cells@, out_cells@));
                lemma_rms_norm(
                    cfg,
                    domain,
                    env,
                    x_cells@,
                    w_cells@,
                    sq_cells@,
                    root_cell,
                    normed_cells@,
                    raw_cells@,
                    out_cells@,
                );
            }
            assert forall|setup: Setup|
                self.ok(setup) && cfg.distinct() && base.honest(
                    setup,
                ) implies #[trigger] layouter.honest(setup) by {
                assert(l1.honest(setup));
                assert(all_linked(setup, x_cells@));
                assert(all_linked(setup, w_cells@));
                assert(l2.honest(setup));
                assert(all_linked(setup, sq_cells@));
                assert(root_cfg.ok(setup, domain));
                assert(l3.honest(setup));
                assert(l4.honest(setup));
                assert(all_linked(setup, normed_cells@));
                assert(l5.honest(setup));
                assert(all_linked(setup, raw_cells@));
            }
        }
        Ok(
            RmsNormOutput {
                outputs: outs,
                output_cells: out_cells,
                input_cells: x_cells,
                weight_cells: w_cells,
            },
        )
    }
}

/// The cells of a satisfied normalization hold the normalized and weighted inputs.
proof fn lemma_rms_norm(
    cfg: RmsNormConfig,
    domain: Seq<(I18, I18)>,
    env: Assignment,
    ins: Seq<AssignedCell>,
    weights: Seq<AssignedCell>,
    sqs: Seq<AssignedCell>,
    root: AssignedCell,
    normed: Seq<AssignedCell>,
    raw: Seq<AssignedCell>,
    outs: Seq<AssignedCell>,
)
    requires
        weights.len() == ins.len(),
        sqs.len() == ins.len(),
        normed.len() == ins.len(),
        raw.len() == ins.len(),
        outs.len() == ins.len(),
        all_multiplied(env, ins, ins, sqs),
        (forall|i: int| 0 <= i < sqs.len() ==> is_shifted(env.cell((#[trigger] sqs[i]).cell)))
            ==> root_sound(cfg.reduce_mean, cfg.epsilon, domain, env, sqs, root),
        all_scaled(env, ins, root, normed),
        all_bridged(env, raw, normed),
        all_multiplied(env, raw, weights, outs),
    ensures
        cfg.proves(
            domain,
            cell_raws(env, ins),
            cell_raws(env, weights),
            shifted_raws(env, outs),
        ),
{
    let xs = cell_raws(env, ins);
    let ws = cell_raws(env, weights);
    let v = centered(env.cell(root.cell));
    assert forall|i: int| 0 <= i < xs.len() implies is_i64(#[trigger] xs[i]) by {
        assert(is_shifted(env.cell(sqs[i].cell)));
    }
    assert forall|i: int| 0 <= i < ws.len() implies is_i64(#[trigger] ws[i]) by {
        assert(is_shifted(env.cell(outs[i].cell)));
    }
    assert forall|i: int| 0 <= i < sqs.len() implies is_shifted(
        env.cell((#[trigger] sqs[i]).cell),
    ) && unshifted(env.cell(sqs[i].cell)) == squares(xs)[i] by {}
    assert(shifted_raws(env, sqs) =~= squares(xs));
    assert(shifted_raws(env, outs) =~= cfg.normalized(xs, ws, v)) by {
        assert forall|i: int| 0 <= i < outs.len() implies #[trigger] shifted_raws(env, outs)[i]
            == cfg.normalized(xs, ws, v)[i] by {
            assert(is_shifted(env.cell(outs[i].cell)));
            assert(is_shifted(env.cell(normed[i].cell)));
            assert(bridged(env.cell(raw[i].cell), env.cell(normed[i].cell)));
            assert(scaled(xs, v)[i] == centered(env.cell(raw[i].cell)));
        }
    }
    assert(is_function_row(domain, cfg.mean_square(xs) + cfg.epsilon@, v));
}

} // verus!
