//! Layer normalization over a fixed count of numbers, without learned scale or shift:
//!
//! ```text
//! mean     = (1/k) * sum_i x_i
//! variance = (1/k) * sum_i (x_i - mean)^2
//! output_i = (x_i - mean) * rsqrt(variance + epsilon)
//! ```
//!
//! The chip chains means, additions, multiplications and a lookup. Each value that one of them
//! hands to another is linked cell to cell, through a bridge where the two hold it shifted and
//! unshifted. `variance + epsilon` must be an exact point of the lookup's domain.
use vstd::prelude::*;
use vstd::string::*;

use crate::chips::bridge::{
    all_bridged, all_in, all_linked, all_multiplied, assign_unshift, bridged, configure_bridge,
    equal_cells, hold_raw, hold_shifted, lemma_hold, link_each, links_trace, multiply_each,
    multiply_laid, unshift_each, BridgeConfig,
};
use crate::chips::eltwise::{
    assign_add_row, load_mul_operand_range_table, EltwiseAddChip, EltwiseAddConfig, EltwiseMulChip,
    EltwiseMulConfig,
};
use crate::chips::lookup::{
    assign_lookup_row, input_rows, is_function_row, lemma_value_at, output_rows, value_at, LookupChip,
    LookupConfig, LookupError,
};
use crate::chips::offset::{assign_offset, configure_offset, OffsetConfig};
use crate::chips::reduce::{
    cell_raws, mean_sound, raws, sums_fit, totals_fit, ReduceMeanChip, ReduceMeanConfig,
};
use crate::field::{centered, modulus};
use crate::field_convert::{
    i128_to_fr, is_shifted, shifted_i64_witness, unshifted, SIGNED_SHIFT,
};
use crate::fixed_point::{is_i64, lemma_i18_range, rescaled, I18};
use crate::layout::{
    cell_at, cells_of, column_of, AssignedCell, Cell, Laid, Layouter, Mark,
};
use crate::plonk::{
    group_extends, Assignment, Column, ConstraintSystem, Expression, Selector, Setup,
};
use crate::text::{decimal, unsigned_text};

verus! {

/// A lookup of reciprocal square roots.
#[derive(Clone, Copy, Debug)]
pub struct RsqrtConfig {
    pub lookup: LookupConfig,
}

impl RsqrtConfig {
    /// The column of the lookup's inputs.
    pub fn input_column(&self) -> (c: Column)
        ensures
            c == self.lookup.input,
    {
        self.lookup.input
    }

    /// The column of the lookup's outputs.
    pub fn output_column(&self) -> (c: Column)
        ensures
            c == self.lookup.output,
    {
        self.lookup.output
    }

    /// The selector that switches the lookup on.
    pub fn selector(&self) -> (s: Selector)
        ensures
            s == self.lookup.selector,
    {
        self.lookup.selector
    }
}

/// How the domain of a reciprocal-square-root lookup is given.
#[derive(Debug)]
pub enum RsqrtDomain {
    /// `n` points evenly spread between two bounds, given by the bits of their 64-bit floating
    /// point representations.
    Range { min_bits: u64, max_bits: u64, n: usize },
    /// The raw values of the points.
    RawAnchors(Vec<i64>),
}

/// A domain of reciprocal square roots, its points as a sequence.
#[verifier::ext_equal]
pub enum Domain {
    Range { min_bits: u64, max_bits: u64, n: usize },
    RawAnchors(Seq<i64>),
}

impl View for RsqrtDomain {
    type V = Domain;

    open spec fn view(&self) -> Domain {
        match *self {
            RsqrtDomain::Range { min_bits, max_bits, n } => Domain::Range {
                min_bits,
                max_bits,
                n,
            },
            RsqrtDomain::RawAnchors(anchors) => Domain::RawAnchors(anchors@),
        }
    }
}

impl Clone for RsqrtDomain {
    fn clone(&self) -> (r: Self)
        ensures
            r@ == self@,
    {
        match self {
            RsqrtDomain::Range { min_bits, max_bits, n } => RsqrtDomain::Range {
                min_bits: *min_bits,
                max_bits: *max_bits,
                n: *n,
            },
            RsqrtDomain::RawAnchors(anchors) => {
                let mut points: Vec<i64> = Vec::new();
                let mut i: usize = 0;
                while i < anchors.len()
                    invariant
                        i <= anchors@.len(),
                        points@ == anchors@.take(i as int),
                    decreases anchors@.len() - i,
                {
                    points.push(anchors[i]);
                    assert(anchors@.take(i + 1) =~= anchors@.take(i as int).push(
                        anchors@[i as int],
                    ));
                    i += 1;
                }
                assert(anchors@.take(i as int) =~= anchors@);
                RsqrtDomain::RawAnchors(points)
            },
        }
    }
}

/// Proves that a reciprocal square root was looked up at a point of its domain.
pub struct RsqrtChip {
    pub inner: LookupChip,
}

impl RsqrtChip {
    pub fn configure(meta: &mut ConstraintSystem, input: Column, output: Column) -> (config:
        RsqrtConfig)
        requires
            old(meta).tables + 2 <= usize::MAX,
        ensures
            config.lookup.input == input && config.lookup.output == output,
            config.lookup.wf(),
            config.lookup.table_input.0 == old(meta).tables,
            config.lookup.table_output.0 == old(meta).tables + 1,
            final(meta).rules@.len() == old(meta).rules@.len() + 1,
            final(meta).advice == old(meta).advice,
            final(meta).fixed == old(meta).fixed,
            final(meta).instance == old(meta).instance,
            final(meta).tables == old(meta).tables + 2,
            final(meta).constants@ == old(meta).constants@,
            final(meta).extends(*old(meta)),
            forall|setup: Setup|
                setup.cs.extends(*final(meta)) ==> #[trigger] config.lookup.rules(setup),
            forall|setup: Setup, domain: Seq<(I18, I18)>|
                #![trigger setup.cs.extends(*final(meta)), config.lookup.loaded(setup, domain)]
                setup.cs.extends(*final(meta)) && config.lookup.loaded(setup, domain)
                    ==> setup.rests_between(*old(meta), *final(meta)),
    {
        RsqrtConfig { lookup: LookupChip::configure(meta, input, output) }
    }

    /// A chip for the table that takes each `domain[i]` to `values[i]`.
    pub fn construct(config: RsqrtConfig, domain: Vec<I18>, values: Vec<I18>) -> (chip: Self)
        requires
            domain@.len() == values@.len(),
        ensures
            chip.inner.config == config.lookup,
            chip.inner.domain@.len() == domain@.len(),
            forall|i: int|
                0 <= i < domain@.len() ==> #[trigger] chip.inner.domain@[i] == (
                    domain@[i],
                    values@[i],
                ),
    {
        RsqrtChip { inner: LookupChip::construct(config.lookup, domain, values) }
    }

    /// Loads the table. Called once in a synthesis.
    pub fn load_table(&self, layouter: &mut Layouter)
        requires
            self.inner.config.wf(),
            (old(layouter).tables())(self.inner.config.table_input.0 as int).len() == 0,
            (old(layouter).tables())(self.inner.config.table_output.0 as int).len() == 0,
        ensures
            final(layouter).only_loads(*old(layouter)),
            final(layouter).trace() == self.inner.config.table_trace(
                old(layouter).trace(),
                self.inner.domain@,
            ),
            (final(layouter).tables())(self.inner.config.table_input.0 as int) == input_rows(
                self.inner.domain@,
            ),
            (final(layouter).tables())(self.inner.config.table_output.0 as int) == output_rows(
                self.inner.domain@,
            ),
            forall|t: int|
                t != self.inner.config.table_input.0 && t != self.inner.config.table_output.0
                    ==> #[trigger] (final(layouter).tables())(t) == (old(layouter).tables())(t),
    {
        self.inner.load_table(layouter);
    }

    /// Witnesses an input with its table value in a looked-up row and returns the value.
    pub fn assign(&self, layouter: &mut Layouter, input: I18) -> (res: Result<I18, LookupError>)
        ensures
            match value_at(self.inner.domain@, input@) {
                Some(y) => res matches Ok(v) && v == y && {
                    let r = old(layouter).next();
                    &&& final(layouter).grows(*old(layouter))
                    &&& final(layouter).trace() == self.inner.config.trace(old(layouter).trace())
                    &&& forall|env: Assignment| #[trigger]
                        final(layouter).agrees(env) ==> env.at(r, self.inner.config.input, 0)
                            == input@ % modulus() && env.at(r, self.inner.config.output, 0) == y@
                            % modulus()
                    &&& forall|setup: Setup, env: Assignment|
                        self.inner.ok(setup) && #[trigger] final(layouter).sat(setup, env)
                            ==> is_function_row(
                            self.inner.domain@,
                            centered(env.at(r, self.inner.config.input, 0)),
                            centered(env.at(r, self.inner.config.output, 0)),
                        )
                    &&& forall|setup: Setup|
                        self.inner.ok(setup) && self.inner.config.input
                            != self.inner.config.output && old(layouter).honest(setup)
                            ==> #[trigger] final(layouter).honest(setup)
                },
                None => *final(layouter) == *old(layouter) && (res matches Err(
                    LookupError::InputNotInDomain(x),
                ) && x == input),
            },
    {
        match self.inner.assign(layouter, input) {
            Ok((value, _)) => Ok(value),
            Err(e) => Err(e),
        }
    }
}

#[derive(Debug)]
pub enum LayerNormError {
    /// The inputs do not have the configured count.
    InputCountMismatch { expected: usize, got: usize },
    /// Synthesis failed.
    Synthesis(String),
    /// `variance + epsilon` is not a point of the lookup's domain.
    Rsqrt(LookupError),
}

impl LayerNormError {
    pub open spec fn text(self) -> Seq<char> {
        match self {
            LayerNormError::InputCountMismatch { expected, got } => "layer norm expects "@
                + decimal(expected as int) + " inputs (k), got "@ + decimal(got as int),
            LayerNormError::Synthesis(e) => "layer norm synthesis error: "@ + e@,
            LayerNormError::Rsqrt(e) => "layer norm rsqrt lookup failed: "@ + e.text(),
        }
    }

    /// The text of the error.
    pub fn message(&self) -> (r: String)
        ensures
            r@ == self.text(),
    {
        match self {
            LayerNormError::InputCountMismatch { expected, got } => {
                let mut r = String::from_str("layer norm expects ");
                r.append(unsigned_text(*expected as u128).as_str());
                r.append(" inputs (k), got ");
                r.append(unsigned_text(*got as u128).as_str());
                r
            },
            LayerNormError::Synthesis(e) => {
                let mut r = String::from_str("layer norm synthesis error: ");
                r.append(e.as_str());
                r
            },
            LayerNormError::Rsqrt(e) => {
                let mut r = String::from_str("layer norm rsqrt lookup failed: ");
                r.append(e.message().as_str());
                r
            },
        }
    }
}

#[derive(Clone, Copy, Debug)]
pub struct LayerNormConfig {
    pub reduce_mean: ReduceMeanConfig,
    pub add: EltwiseAddConfig,
    pub mul: EltwiseMulConfig,
    pub rsqrt: RsqrtConfig,
    pub k: usize,
    pub epsilon: I18,
    /// The shifted mean and its shifted negation, tied in one row.
    pub mean_link: Column,
    pub neg_mean: Column,
    pub s_neg_mean: Selector,
    pub unshift: BridgeConfig,
    /// Fixes the second summand of `variance + epsilon`.
    pub offset: OffsetConfig,
}

/// Vanishes where two shifted values are each other's negations.
pub open spec fn negation_gate(x: int, y: int) -> int {
    x + y - 2 * SIGNED_SHIFT
}

impl LayerNormConfig {
    pub open spec fn wf(self) -> bool {
        &&& self.reduce_mean.wf() && self.reduce_mean.sum.k == self.k
        &&& self.add.wf()
        &&& self.mul.wf()
        &&& self.rsqrt.lookup.wf()
        &&& self.rsqrt.lookup.table_input != self.mul.range_a.table
        &&& self.rsqrt.lookup.table_input != self.mul.range_b.table
        &&& self.rsqrt.lookup.table_output != self.mul.range_a.table
        &&& self.rsqrt.lookup.table_output != self.mul.range_b.table
        &&& self.offset.value == self.epsilon
    }

    pub open spec fn distinct(self) -> bool {
        &&& self.reduce_mean.distinct()
        &&& self.add.distinct()
        &&& self.mul.distinct()
        &&& self.rsqrt.lookup.input != self.rsqrt.lookup.output
        &&& self.mean_link != self.neg_mean
        &&& self.unshift.distinct()
    }

    pub open spec fn rules(self, setup: Setup) -> bool {
        &&& self.reduce_mean.ok(setup)
        &&& self.add.ok(setup)
        &&& self.mul.rules(setup)
        &&& self.rsqrt.lookup.rules(setup)
        &&& self.unshift.ok(setup)
        &&& self.offset.ok(setup)
        &&& forall|env: Assignment, r: int, o: int| #[trigger]
            setup.holds(self.s_neg_mean, env, r, o) <==> negation_gate(
                env.at(r, self.mean_link, o),
                env.at(r, self.neg_mean, o),
            ) % modulus() == 0
        &&& setup.cs.linked(self.mean_link)
        &&& setup.cs.linked(self.neg_mean)
    }

    /// The tables of the lookup and of the operand checks are loaded.
    pub open spec fn loaded(self, setup: Setup, domain: Seq<(I18, I18)>) -> bool {
        self.mul.loaded(setup) && self.rsqrt.lookup.loaded(setup, domain)
    }

    pub open spec fn ok(self, setup: Setup, domain: Seq<(I18, I18)>) -> bool {
        self.rules(setup) && self.loaded(setup, domain)
    }

    /// Rows that a lookup of the chip is off at satisfy it.
    pub open spec fn rests(self, setup: Setup) -> bool {
        self.mul.rests(setup) && setup.rests(self.rsqrt.lookup.selector)
    }

    pub proof fn lemma_rests(self, setup: Setup, domain: Seq<(I18, I18)>)
        requires
            self.ok(setup, domain),
        ensures
            self.rests(setup),
    {
        self.mul.lemma_rests(setup);
        self.rsqrt.lookup.lemma_rests(setup, domain);
    }

    pub open spec fn mean(self, xs: Seq<int>) -> int {
        self.reduce_mean.mean(xs)
    }

    /// The deviations from the mean.
    pub open spec fn diffs(self, xs: Seq<int>) -> Seq<int> {
        Seq::new(xs.len(), |i: int| xs[i] - self.mean(xs))
    }

    pub open spec fn variance(self, xs: Seq<int>) -> int {
        self.mean(squares(self.diffs(xs)))
    }

    /// The normalized values for a reciprocal square root.
    pub open spec fn normalized(self, xs: Seq<int>, v: int) -> Seq<int> {
        scaled(self.diffs(xs), v)
    }

    /// No step of the normalization leaves the range of 64-bit integers.
    pub open spec fn fits(self, domain: Seq<(I18, I18)>, xs: Seq<int>) -> bool {
        &&& totals_fit(xs)
        &&& is_i64(self.mean(xs)) && is_i64(-self.mean(xs))
        &&& all_i64(self.diffs(xs))
        &&& all_i64(squares(self.diffs(xs)))
        &&& totals_fit(squares(self.diffs(xs)))
        &&& is_i64(self.variance(xs))
        &&& is_i64(self.variance(xs) + self.epsilon@)
        &&& value_at(domain, self.variance(xs) + self.epsilon@) matches Some(v) ==> all_i64(
            self.normalized(xs, v@),
        )
    }

    /// What a satisfied layout proves of inputs and outputs: the outputs are the normalized
    /// inputs, for a reciprocal square root that the table gives at the variance plus epsilon.
    pub open spec fn proves(self, domain: Seq<(I18, I18)>, xs: Seq<int>, outs: Seq<int>) -> bool {
        &&& all_i64(xs)
        &&& exists|v: int| #[trigger]
            is_function_row(domain, self.variance(xs) + self.epsilon@, v) && outs
                == self.normalized(xs, v)
    }
}

pub open spec fn all_i64(s: Seq<int>) -> bool {
    forall|i: int| 0 <= i < s.len() ==> is_i64(#[trigger] s[i])
}

/// The requantized squares.
pub open spec fn squares(s: Seq<int>) -> Seq<int> {
    Seq::new(s.len(), |i: int| rescaled(s[i] * s[i]))
}

/// The requantized products with one factor.
pub open spec fn scaled(s: Seq<int>, v: int) -> Seq<int> {
    Seq::new(s.len(), |i: int| rescaled(s[i] * v))
}

/// The signed integers in shifted cells.
pub open spec fn shifted_raws(env: Assignment, cells: Seq<AssignedCell>) -> Seq<int> {
    Seq::new(cells.len(), |i: int| unshifted(env.cell(cells[i].cell)))
}

/// Each sum cell is shifted and holds its input plus the common summand.
pub open spec fn all_added(
    env: Assignment,
    xs: Seq<AssignedCell>,
    n: AssignedCell,
    sums: Seq<AssignedCell>,
) -> bool {
    forall|i: int|
        0 <= i < sums.len() ==> {
            let c = env.cell((#[trigger] sums[i]).cell);
            &&& is_i64(centered(env.cell(xs[i].cell)))
            &&& is_shifted(env.cell(n.cell)) && is_shifted(c)
            &&& unshifted(c) == centered(env.cell(xs[i].cell)) + unshifted(env.cell(n.cell))
        }
}

/// Adds one number to each of a vector and links the operands to their cells.
fn add_each(
    add: &EltwiseAddConfig,
    unshift: &BridgeConfig,
    layouter: &mut Layouter,
    xs: &Vec<I18>,
    x_cells: &Vec<AssignedCell>,
    n: I18,
    n_cell: AssignedCell,
) -> (res: (Vec<I18>, Vec<AssignedCell>))
    requires
        add.wf(),
        hold_raw(*old(layouter), x_cells@, xs@),
        old(layouter).has(n_cell),
        n_cell.value@ == n@ + SIGNED_SHIFT,
        forall|i: int| 0 <= i < xs@.len() ==> is_i64((#[trigger] xs@[i])@ + n@),
    ensures
        final(layouter).grows(*old(layouter)),
        res.0@.len() == xs@.len(),
        forall|i: int| 0 <= i < res.0@.len() ==> (#[trigger] res.0@[i])@ == xs@[i]@ + n@,
        hold_shifted(*final(layouter), res.1@, res.0@),
        all_in(res.1@, add.c),
        forall|setup: Setup, env: Assignment|
            add.ok(setup) && unshift.ok(setup) && #[trigger] final(layouter).sat(setup, env)
                ==> all_added(env, x_cells@, n_cell, res.1@),
        forall|setup: Setup|
            add.ok(setup) && add.distinct() && unshift.ok(setup) && unshift.distinct()
                && all_linked(setup, x_cells@) && setup.cs.linked(n_cell.cell.column) && old(
                layouter,
            ).honest(setup) ==> #[trigger] final(layouter).honest(setup),
{
    let ghost base = *layouter;
    let mut values: Vec<I18> = Vec::new();
    let mut cells: Vec<AssignedCell> = Vec::new();
    let mut i: usize = 0;
    while i < xs.len()
        invariant
            i <= xs@.len(),
            add.wf(),
            hold_raw(base, x_cells@, xs@),
            base.has(n_cell),
            n_cell.value@ == n@ + SIGNED_SHIFT,
            forall|i: int| 0 <= i < xs@.len() ==> is_i64((#[trigger] xs@[i])@ + n@),
            layouter.grows(base),
            values@.len() == i,
            cells@.len() == i,
            all_in(cells@, add.c),
            forall|j: int| 0 <= j < i ==> (#[trigger] values@[j])@ == xs@[j]@ + n@,
            forall|j: int|
                0 <= j < i ==> layouter.has(#[trigger] cells@[j]) && cells@[j].value@
                    == values@[j]@ + SIGNED_SHIFT,
            forall|setup: Setup, env: Assignment, j: int|
                #![trigger layouter.sat(setup, env), cells@[j]]
                add.ok(setup) && unshift.ok(setup) && layouter.sat(setup, env) && 0 <= j < i ==> {
                    let c = env.cell(cells@[j].cell);
                    &&& is_i64(centered(env.cell(x_cells@[j].cell)))
                    &&& is_shifted(env.cell(n_cell.cell)) && is_shifted(c)
                    &&& unshifted(c) == centered(env.cell(x_cells@[j].cell)) + unshifted(
                        env.cell(n_cell.cell),
                    )
                },
            forall|setup: Setup|
                add.ok(setup) && add.distinct() && unshift.ok(setup) && unshift.distinct()
                    && all_linked(setup, x_cells@) && setup.cs.linked(n_cell.cell.column)
                    && base.honest(setup) ==> #[trigger] layouter.honest(setup),
        decreases xs@.len() - i,
    {
        let ghost before = *layouter;
        assert(is_i64(xs@[i as int]@ + n@));
        let x: i64 = xs[i].raw();
        let row = assign_add_row(add, layouter, x, n.raw());
        let ghost l1 = *layouter;
        let u = assign_unshift(unshift, layouter, row.a, x);
        let ghost l2 = *layouter;
        layouter.region();
        layouter.constrain_equal(u.cell, x_cells[i].cell);
        layouter.constrain_equal(row.b.cell, n_cell.cell);
        proof {
            assert(layouter.grows(before));
            lemma_hold(*layouter, before, cells@);
            assert(base.has(x_cells@[i as int]));
        }
        let ghost prev = cells@;
        values.push(I18::from_raw(x + n.raw()));
        cells.push(row.c);
        proof {
            assert forall|j: int| 0 <= j < i + 1 implies layouter.has(#[trigger] cells@[j])
                && cells@[j].value@ == values@[j]@ + SIGNED_SHIFT by {
                if j < i {
                    assert(layouter.has(prev[j]));
                } else {
                    assert(l1.has(row.c));
                    assert forall|env: Assignment| #[trigger] layouter.agrees(
                        env,
                    ) implies env.cell(row.c.cell) == row.c.value@ by {
                        assert(l2.agrees(env) && l1.agrees(env));
                    }
                }
            }
            assert forall|setup: Setup|
                add.ok(setup) && add.distinct() && unshift.ok(setup) && unshift.distinct()
                    && all_linked(setup, x_cells@) && setup.cs.linked(n_cell.cell.column)
                    && base.honest(setup) implies #[trigger] layouter.honest(setup) by {
                assert(before.honest(setup));
                assert(l1.honest(setup));
                assert(l2.honest(setup));
                assert(setup.cs.linked(x_cells@[i as int].cell.column));
                assert forall|env: Assignment| #[trigger] layouter.agrees(
                    env,
                ) implies layouter.sat(setup, env) by {
                    assert(l2.agrees(env) && l1.agrees(env) && before.agrees(env));
                    assert(base.agrees(env));
                }
            }
            assert forall|setup: Setup, env: Assignment, j: int|
                #![trigger layouter.sat(setup, env), cells@[j]]
                add.ok(setup) && unshift.ok(setup) && layouter.sat(setup, env) && 0 <= j < i
                    + 1 implies {
                let c = env.cell(cells@[j].cell);
                &&& is_i64(centered(env.cell(x_cells@[j].cell)))
                &&& is_shifted(env.cell(n_cell.cell)) && is_shifted(c)
                &&& unshifted(c) == centered(env.cell(x_cells@[j].cell)) + unshifted(
                    env.cell(n_cell.cell),
                )
            } by {
                assert(l2.sat(setup, env) && l1.sat(setup, env) && before.sat(setup, env));
                if j < i {
                    assert(cells@[j] == prev[j]);
                } else {
                    assert(row.sound(env));
                    assert(bridged(env.cell(u.cell), env.cell(row.a.cell)));
                }
            }
        }
        i += 1;
    }
    (values, cells)
}

/// The looked-up value is the table's at the mean of the values in shifted cells, plus the
/// offset.
pub open spec fn root_sound(
    mean: ReduceMeanConfig,
    offset: I18,
    domain: Seq<(I18, I18)>,
    env: Assignment,
    cells: Seq<AssignedCell>,
    root: AssignedCell,
) -> bool {
    is_function_row(
        domain,
        mean.mean(shifted_raws(env, cells)) + offset@,
        centered(env.cell(root.cell)),
    )
}

/// The configurations that a normalization's root is computed with.
#[derive(Clone, Copy, Debug)]
pub struct RootConfig {
    pub mean: ReduceMeanConfig,
    pub add: EltwiseAddConfig,
    pub unshift: BridgeConfig,
    pub lookup: LookupConfig,
    pub offset: OffsetConfig,
}

impl RootConfig {
    pub open spec fn ok(self, setup: Setup, domain: Seq<(I18, I18)>) -> bool {
        &&& self.mean.ok(setup)
        &&& self.add.ok(setup)
        &&& self.unshift.ok(setup)
        &&& self.lookup.ok(setup, domain)
        &&& self.offset.ok(setup)
    }

    pub open spec fn distinct(self) -> bool {
        &&& self.mean.distinct()
        &&& self.add.distinct()
        &&& self.unshift.distinct()
        &&& self.lookup.input != self.lookup.output
    }
}

impl RootConfig {
    /// The layout after a root of the mean of cells, with the root's cell.
    pub closed spec fn root_laid(self, t: Seq<Mark>, cells: Seq<Cell>) -> Laid {
        let n = cells.len() as int;
        let means = self.mean.trace(t, n);
        let raw = self.unshift.unshift_laid(means, cells, n);
        let linked = links_trace(
            raw.trace,
            raw.cells,
            column_of(t.len(), self.mean.sum.values, n),
            n,
        );
        let sums = self.add.trace(linked).push(Mark::Region).push(
            Mark::Equal {
                left: cell_at(linked.len(), self.add.a, 0),
                right: self.mean.mean_cell(t, n),
            },
        );
        let fixed = self.offset.trace(sums).push(Mark::Region).push(
            Mark::Equal {
                left: cell_at(linked.len(), self.add.b, 0),
                right: cell_at(sums.len(), self.offset.column, 0),
            },
        );
        let found = self.lookup.trace(fixed);
        let point = self.unshift.unshift_trace(found, cell_at(linked.len(), self.add.c, 0));
        Laid {
            trace: self.lookup.trace(point).push(Mark::Region).push(
                Mark::Equal {
                    left: cell_at(point.len(), self.lookup.input, 0),
                    right: cell_at(found.len(), self.unshift.unshifted, 0),
                },
            ),
            cells: seq![cell_at(point.len(), self.lookup.output, 0)],
        }
    }
}

/// A cell, `n` times.
pub open spec fn repeated(c: Cell, n: int) -> Seq<Cell> {
    Seq::new(n as nat, |i: int| c)
}

/// Takes the mean of values in shifted cells, adds the offset and looks the sum up. Returns the
/// looked-up value with its cell.
pub(crate) fn assign_root(
    cfg: &RootConfig,
    rsqrt: &RsqrtChip,
    layouter: &mut Layouter,
    values: &Vec<I18>,
    cells: &Vec<AssignedCell>,
) -> (res: Result<(I18, AssignedCell), LookupError>)
    requires
        cfg.mean.wf(),
        cfg.add.wf(),
        rsqrt.inner.config == cfg.lookup,
        values@.len() == cfg.mean.sum.k,
        sums_fit(values@),
        is_i64(cfg.mean.mean(raws(values@))),
        is_i64(cfg.mean.mean(raws(values@)) + cfg.offset.value@),
        hold_shifted(*old(layouter), cells@, values@),
    ensures
        final(layouter).grows(*old(layouter)),
        match value_at(rsqrt.inner.domain@, cfg.mean.mean(raws(values@)) + cfg.offset.value@) {
            Some(v) => res matches Ok((y, c)) && y == v && {
                &&& (Laid { trace: final(layouter).trace(), cells: seq![c.cell] })
                    == cfg.root_laid(old(layouter).trace(), cells_of(cells@))
                &&& c.cell.column == cfg.lookup.output
                &&& c.value@ == v@ % modulus()
                &&& final(layouter).has(c)
                &&& forall|setup: Setup, env: Assignment|
                    cfg.ok(setup, rsqrt.inner.domain@) && #[trigger] final(layouter).sat(setup, env)
                        && (forall|i: int|
                        0 <= i < cells@.len() ==> is_shifted(env.cell((#[trigger] cells@[i]).cell)))
                        ==> root_sound(
                        cfg.mean,
                        cfg.offset.value,
                        rsqrt.inner.domain@,
                        env,
                        cells@,
                        c,
                    )
                &&& forall|setup: Setup|
                    cfg.ok(setup, rsqrt.inner.domain@) && cfg.distinct() && all_linked(
                        setup,
                        cells@,
                    ) && old(layouter).honest(setup) ==> #[trigger] final(layouter).honest(setup)
            },
            None => res matches Err(LookupError::InputNotInDomain(x)) && x@ == cfg.mean.mean(
                raws(values@),
            ) + cfg.offset.value@,
        },
{
    let ghost base = *layouter;
    let ghost domain = rsqrt.inner.domain@;
    let epsilon = cfg.offset.value;
    let (mean, mean_cell, in_cells): (I18, AssignedCell, Vec<AssignedCell>) =
        ReduceMeanChip::construct(cfg.mean).assign(layouter, values);
    let ghost l1 = *layouter;
    proof {
        lemma_hold(*layouter, base, cells@);
    }
    let raw_cells = unshift_each(&cfg.unshift, layouter, cells, values);
    let ghost l2 = *layouter;
    proof {
        assert forall|i: int| 0 <= i < in_cells@.len() implies l1.has(#[trigger] in_cells@[i]) by {}
        lemma_hold(*layouter, l1, in_cells@);
    }
    link_each(layouter, &raw_cells, &in_cells);
    let ghost l3 = *layouter;
    let row = assign_add_row(&cfg.add, layouter, mean.raw(), epsilon.raw());
    let ghost l4 = *layouter;
    layouter.region();
    layouter.constrain_equal(row.a.cell, mean_cell.cell);
    let ghost l4b = *layouter;
    let offset_cell = assign_offset(&cfg.offset, layouter);
    let ghost l4c = *layouter;
    layouter.region();
    layouter.constrain_equal(row.b.cell, offset_cell.cell);
    let ghost l5 = *layouter;
    let sum = I18::from_raw(mean.raw() + epsilon.raw());
    let value: I18 = match rsqrt.assign(layouter, sum) {
        Ok(v) => v,
        Err(e) => {
            return Err(e);
        },
    };
    let ghost l6 = *layouter;
    proof {
        assert(l4.has(row.c));
        assert forall|env: Assignment| #[trigger] layouter.agrees(env) implies env.cell(row.c.cell)
            == row.c.value@ by {
            assert(l5.agrees(env) && l4c.agrees(env) && l4b.agrees(env) && l4.agrees(env));
        }
    }
    let sum_cell = assign_unshift(&cfg.unshift, layouter, row.c, sum.raw());
    let ghost l7 = *layouter;
    let (in_cell, out_cell): (AssignedCell, AssignedCell) = assign_lookup_row(
        &cfg.lookup,
        layouter,
        sum,
        value,
    );
    let ghost l8 = *layouter;
    layouter.region();
    layouter.constrain_equal(in_cell.cell, sum_cell.cell);
    proof {
        lemma_value_at(domain, sum@);
        assert forall|setup: Setup, env: Assignment|
            cfg.ok(setup, domain) && #[trigger] layouter.sat(setup, env) && (forall|i: int|
                0 <= i < cells@.len() ==> is_shifted(
                    env.cell((#[trigger] cells@[i]).cell),
                )) implies root_sound(
            cfg.mean,
            cfg.offset.value,
            domain,
            env,
            cells@,
            out_cell,
        ) by {
            assert(l8.sat(setup, env) && l7.sat(setup, env) && l6.sat(setup, env));
            assert(l5.sat(setup, env) && l4c.sat(setup, env) && l4b.sat(setup, env));
            assert(l4.sat(setup, env) && l3.sat(setup, env));
            assert(l2.sat(setup, env) && l1.sat(setup, env));
            assert(cfg.lookup.ok(setup, domain));
            let vals = cell_raws(env, in_cells@);
            assert(all_bridged(env, raw_cells@, cells@));
            assert(equal_cells(env, raw_cells@, in_cells@));
            assert forall|i: int| 0 <= i < vals.len() implies is_i64(#[trigger] vals[i])
                && vals[i] == unshifted(env.cell(cells@[i].cell)) by {
                let u = raw_cells@[i];
                assert(bridged(env.cell(u.cell), env.cell(cells@[i].cell)));
                assert(env.cell(u.cell) == env.cell(in_cells@[i].cell));
            }
            assert(vals =~= shifted_raws(env, cells@));
            assert(mean_sound(cfg.mean, env, mean_cell, in_cells@));
            assert(row.sound(env));
            assert(unshifted(env.cell(row.b.cell)) == epsilon@);
            assert(bridged(env.cell(sum_cell.cell), env.cell(row.c.cell)));
            assert(is_function_row(
                domain,
                cfg.mean.mean(shifted_raws(env, cells@)) + epsilon@,
                centered(env.cell(out_cell.cell)),
            ));
        }
        assert forall|setup: Setup|
            cfg.ok(setup, domain) && cfg.distinct() && all_linked(setup, cells@) && base.honest(
                setup,
            ) implies #[trigger] layouter.honest(setup) by {
            assert(l1.honest(setup));
            assert(l2.honest(setup));
            assert(l3.honest(setup)) by {
                assert forall|i: int| 0 <= i < raw_cells@.len() implies setup.cs.linked(
                    (#[trigger] raw_cells@[i]).cell.column,
                ) by {}
                assert forall|i: int| 0 <= i < in_cells@.len() implies setup.cs.linked(
                    (#[trigger] in_cells@[i]).cell.column,
                ) by {
                    assert(in_cells@[i].is(
                        base.next(),
                        cfg.mean.sum.values,
                        i,
                        values@[i]@ % modulus(),
                    ));
                }
                assert forall|i: int| 0 <= i < raw_cells@.len() implies l2.has(
                    #[trigger] raw_cells@[i],
                ) && l2.has(in_cells@[i]) && raw_cells@[i].value@ == in_cells@[i].value@ by {
                    assert(l2.has(in_cells@[i]));
                    assert(in_cells@[i].is(
                        base.next(),
                        cfg.mean.sum.values,
                        i,
                        values@[i]@ % modulus(),
                    ));
                }
            }
            assert(l4.honest(setup));
            assert(l4b.honest(setup)) by {
                assert forall|env: Assignment| #[trigger] l4b.agrees(env) implies l4b.sat(
                    setup,
                    env,
                ) by {
                    assert(l4.agrees(env) && l3.agrees(env) && l2.agrees(env) && l1.agrees(env));
                    assert(l1.has(mean_cell));
                }
            }
            assert(l4c.honest(setup));
            assert(l5.honest(setup)) by {
                assert forall|env: Assignment| #[trigger] l5.agrees(env) implies l5.sat(
                    setup,
                    env,
                ) by {
                    assert(l4c.agrees(env) && l4b.agrees(env) && l4.agrees(env));
                    assert(l4.has(row.b));
                }
            }
            assert(rsqrt.inner.ok(setup));
            assert(l6.honest(setup));
            assert(l7.honest(setup));
            assert(cfg.lookup.ok(setup, domain));
            assert(l8.honest(setup));
            assert forall|env: Assignment| #[trigger] layouter.agrees(env) implies layouter.sat(
                setup,
                env,
            ) by {
                assert(l8.agrees(env) && l7.agrees(env));
            }
        }
    }
    Ok((value, out_cell))
}

/// The outputs of a normalization with their shifted cells, and the cells of its inputs.
#[derive(Debug)]
pub struct LayerNormOutput {
    pub outputs: Vec<I18>,
    pub output_cells: Vec<AssignedCell>,
    pub input_cells: Vec<AssignedCell>,
}

pub struct LayerNormChip {
    pub config: LayerNormConfig,
    pub rsqrt_chip: RsqrtChip,
}

/// A negation row of two shifted 64-bit integers holds each other's negations.
proof fn lemma_negation_sound(x: int, y: int)
    requires
        is_shifted(x),
        is_shifted(y),
        negation_gate(x, y) % modulus() == 0,
    ensures
        unshifted(y) == -unshifted(x),
{
}

/// A vector of equal numbers, and of one cell as often.
fn repeat(n: usize, x: I18, c: AssignedCell) -> (res: (Vec<I18>, Vec<AssignedCell>))
    ensures
        res.0@ == Seq::new(n as nat, |i: int| x),
        res.1@ == Seq::new(n as nat, |i: int| c),
{
    let mut xs: Vec<I18> = Vec::new();
    let mut cs: Vec<AssignedCell> = Vec::new();
    let mut i: usize = 0;
    while i < n
        invariant
            i <= n,
            xs@ == Seq::new(i as nat, |j: int| x),
            cs@ == Seq::new(i as nat, |j: int| c),
        decreases n - i,
    {
        xs.push(x);
        cs.push(c);
        i += 1;
        assert(xs@ =~= Seq::new(i as nat, |j: int| x));
        assert(cs@ =~= Seq::new(i as nat, |j: int| c));
    }
    (xs, cs)
}

/// Multiplies each number of a vector by one number and links the operands to their cells.
pub(crate) fn scale_each(
    mul: &EltwiseMulConfig,
    layouter: &mut Layouter,
    xs: &Vec<I18>,
    x_cells: &Vec<AssignedCell>,
    v: I18,
    v_cell: AssignedCell,
) -> (res: (Vec<I18>, Vec<AssignedCell>))
    requires
        mul.wf(),
        hold_raw(*old(layouter), x_cells@, xs@),
        old(layouter).has(v_cell),
        v_cell.value@ == v@ % modulus(),
        all_i64(scaled(raws(xs@), v@)),
    ensures
        final(layouter).grows(*old(layouter)),
        (Laid { trace: final(layouter).trace(), cells: cells_of(res.1@) }) == multiply_laid(
            *mul,
            old(layouter).trace(),
            cells_of(x_cells@),
            repeated(v_cell.cell, xs@.len() as int),
            xs@.len() as int,
        ),
        raws(res.0@) == scaled(raws(xs@), v@),
        hold_shifted(*final(layouter), res.1@, res.0@),
        all_in(res.1@, mul.q),
        forall|setup: Setup, env: Assignment|
            mul.ok(setup) && #[trigger] final(layouter).sat(setup, env) ==> all_scaled(
                env,
                x_cells@,
                v_cell,
                res.1@,
            ),
        forall|setup: Setup|
            mul.ok(setup) && mul.distinct() && all_linked(setup, x_cells@) && setup.cs.linked(
                v_cell.cell.column,
            ) && old(layouter).honest(setup) ==> #[trigger] final(layouter).honest(setup),
{
    let (vs, v_cells): (Vec<I18>, Vec<AssignedCell>) = repeat(xs.len(), v, v_cell);
    proof {
        assert forall|i: int| 0 <= i < xs@.len() implies is_i64(
            rescaled((#[trigger] xs@[i])@ * vs@[i]@),
        ) by {
            assert(is_i64(scaled(raws(xs@), v@)[i]));
        }
        assert forall|i: int| 0 <= i < v_cells@.len() implies layouter.has(#[trigger] v_cells@[i])
            && v_cells@[i].value@ == vs@[i]@ % modulus() by {
            assert(v_cells@[i] == v_cell);
        }
    }
    assert(cells_of(v_cells@) =~= repeated(v_cell.cell, xs@.len() as int));
    let res: (Vec<I18>, Vec<AssignedCell>) = multiply_each(mul, layouter, xs, x_cells, &vs, &v_cells);
    proof {
        assert(raws(res.0@) =~= scaled(raws(xs@), v@));
        assert forall|setup: Setup, env: Assignment|
            mul.ok(setup) && #[trigger] layouter.sat(setup, env) implies all_scaled(
            env,
            x_cells@,
            v_cell,
            res.1@,
        ) by {
            assert(all_multiplied(env, x_cells@, v_cells@, res.1@));
            assert forall|i: int| 0 <= i < res.1@.len() implies {
                let (x, v) = (centered(env.cell(x_cells@[i].cell)), centered(env.cell(v_cell.cell)));
                let q = env.cell((#[trigger] res.1@[i]).cell);
                &&& is_i64(x) && is_i64(v) && is_shifted(q)
                &&& unshifted(q) == rescaled(x * v)
            } by {
                assert(v_cells@[i] == v_cell);
            }
        }
        assert forall|setup: Setup|
            mul.ok(setup) && mul.distinct() && all_linked(setup, x_cells@) && setup.cs.linked(
                v_cell.cell.column,
            ) && old(layouter).honest(setup) implies #[trigger] layouter.honest(setup) by {
            assert(all_linked(setup, v_cells@));
        }
    }
    res
}

/// Each product cell is shifted and holds its operand times the common factor, requantized.
pub open spec fn all_scaled(
    env: Assignment,
    xs: Seq<AssignedCell>,
    v_cell: AssignedCell,
    qs: Seq<AssignedCell>,
) -> bool {
    forall|i: int|
        0 <= i < qs.len() ==> {
            let (x, v) = (centered(env.cell(xs[i].cell)), centered(env.cell(v_cell.cell)));
            let q = env.cell((#[trigger] qs[i]).cell);
            &&& is_i64(x) && is_i64(v) && is_shifted(q)
            &&& unshifted(q) == rescaled(x * v)
        }
}

impl LayerNormChip {
    /// The chip's configuration is well formed and its lookup is the configured one.
    pub open spec fn wf(self) -> bool {
        self.config.wf() && self.rsqrt_chip.inner.config == self.config.rsqrt.lookup
    }

    pub open spec fn domain(self) -> Seq<(I18, I18)> {
        self.rsqrt_chip.inner.domain@
    }

    pub open spec fn ok(self, setup: Setup) -> bool {
        self.config.ok(setup, self.domain())
    }

    /// Whatever satisfies the layout has normalized inputs in the output cells.
    pub open spec fn sound(
        self,
        l: Layouter,
        ins: Seq<AssignedCell>,
        outs: Seq<AssignedCell>,
    ) -> bool {
        forall|setup: Setup, env: Assignment|
            self.ok(setup) && #[trigger] l.sat(setup, env) ==> self.config.proves(
                self.domain(),
                cell_raws(env, ins),
                shifted_raws(env, outs),
            )
    }

    /// `reciprocal` is the fixed-point number for one over `k`, and `epsilon` the offset of the
    /// variance.
    pub fn configure(
        meta: &mut ConstraintSystem,
        values: Column,
        sum: Column,
        sum_shift: Column,
        mean_q: Column,
        mean_r: Column,
        mean_slack: Column,
        add_a: Column,
        add_b: Column,
        add_c: Column,
        mul_a: Column,
        mul_b: Column,
        mul_q: Column,
        mul_r: Column,
        mul_slack: Column,
        bits: Column,
        rsqrt_input: Column,
        rsqrt_output: Column,
        mean_link: Column,
        neg_mean: Column,
        unshift_in: Column,
        unshift_out: Column,
        k: usize,
        reciprocal: I18,
        epsilon: I18,
    ) -> (config: LayerNormConfig)
        requires
            k >= 1,
            old(meta).advice + 2 <= usize::MAX,
            old(meta).tables + 4 <= usize::MAX,
        ensures
            config.wf(),
            config.k == k && config.epsilon == epsilon && config.reduce_mean.reciprocal
                == reciprocal,
            config.reduce_mean.sum.values == values && config.reduce_mean.sum.sum == sum
                && config.reduce_mean.sum.sum_shift == sum_shift && config.reduce_mean.q == mean_q
                && config.reduce_mean.r == mean_r && config.reduce_mean.slack == mean_slack
                && config.reduce_mean.sum.range_sum.bits == bits,
            config.add.a == add_a && config.add.b == add_b && config.add.c == add_c
                && config.add.range_a.bits == bits,
            config.mul.a == mul_a && config.mul.b == mul_b && config.mul.q == mul_q && config.mul.r
                == mul_r && config.mul.slack == mul_slack && config.mul.range_a.limbs == bits,
            config.mul.a_shift.index == old(meta).advice && config.mul.b_shift.index == old(
                meta,
            ).advice + 1,
            config.rsqrt.lookup.input == rsqrt_input && config.rsqrt.lookup.output == rsqrt_output,
            config.mean_link == mean_link && config.neg_mean == neg_mean,
            config.unshift.shifted == unshift_in && config.unshift.unshifted == unshift_out,
            config.offset.column == add_b,
            final(meta).advice == old(meta).advice + 2,
            final(meta).tables == old(meta).tables + 4,
            final(meta).fixed == old(meta).fixed,
            final(meta).instance == old(meta).instance,
            final(meta).rules@.len() == old(meta).rules@.len() + 37,
            final(meta).extends(*old(meta)),
            forall|setup: Setup|
                setup.cs.extends(*final(meta)) ==> #[trigger] config.rules(setup),
            forall|setup: Setup, domain: Seq<(I18, I18)>|
                #![trigger setup.cs.extends(*final(meta)), config.loaded(setup, domain)]
                setup.cs.extends(*final(meta)) && config.loaded(setup, domain)
                    ==> setup.rests_between(*old(meta), *final(meta)),
    {
        let reduce_mean = ReduceMeanChip::configure(
            meta,
            values,
            sum,
            sum_shift,
            mean_q,
            mean_r,
            mean_slack,
            bits,
            k,
            reciprocal,
        );
        let add = EltwiseAddChip::configure(meta, add_a, add_b, add_c, bits);
        let mul = EltwiseMulChip::configure(meta, mul_a, mul_b, mul_q, mul_r, mul_slack, bits);
        let rsqrt = RsqrtChip::configure(meta, rsqrt_input, rsqrt_output);
        meta.enable_equality(mean_link);
        meta.enable_equality(neg_mean);
        let two_shift = Expression::constant(i128_to_fr(2 * SIGNED_SHIFT));
        let s_neg_mean = meta.gate(
            Expression::cell(mean_link).plus(Expression::cell(neg_mean)).minus(two_shift),
        );
        let unshift = configure_bridge(meta, unshift_in, unshift_out);
        let offset = configure_offset(meta, add_b, epsilon);
        let config = LayerNormConfig {
            reduce_mean,
            add,
            mul,
            rsqrt,
            k,
            epsilon,
            mean_link,
            neg_mean,
            s_neg_mean,
            unshift,
            offset,
        };
        proof {
            broadcast use group_extends;

            assert forall|setup: Setup| setup.cs.extends(*meta) implies #[trigger] config.rules(
                setup,
            ) by {}
        }
        config
    }

    /// A chip whose reciprocal square roots are `values[i]` at `domain[i]`.
    pub fn construct(config: LayerNormConfig, domain: Vec<I18>, values: Vec<I18>) -> (chip: Self)
        requires
            domain@.len() == values@.len(),
        ensures
            chip.config == config,
            chip.rsqrt_chip.inner.config == config.rsqrt.lookup,
            chip.domain().len() == domain@.len(),
            forall|i: int|
                0 <= i < domain@.len() ==> #[trigger] chip.domain()[i] == (domain@[i], values@[i]),
    {
        LayerNormChip { config, rsqrt_chip: RsqrtChip::construct(config.rsqrt, domain, values) }
    }

    /// Loads the tables of the lookup and of the operand checks. Called once in a synthesis.
    pub fn load_table(&self, layouter: &mut Layouter)
        requires
            self.wf(),
            (old(layouter).tables())(self.config.rsqrt.lookup.table_input.0 as int).len() == 0,
            (old(layouter).tables())(self.config.rsqrt.lookup.table_output.0 as int).len() == 0,
            (old(layouter).tables())(self.config.mul.range_a.table.0 as int).len() == 0,
            (old(layouter).tables())(self.config.mul.range_b.table.0 as int).len() == 0,
        ensures
            final(layouter).only_loads(*old(layouter)),
            forall|setup: Setup|
                setup.tables == final(layouter).tables() ==> #[trigger] self.config.loaded(
                    setup,
                    self.domain(),
                ),
            forall|t: int|
                t != self.config.rsqrt.lookup.table_input.0 && t
                    != self.config.rsqrt.lookup.table_output.0 && t
                    != self.config.mul.range_a.table.0 && t != self.config.mul.range_b.table.0
                    ==> #[trigger] (final(layouter).tables())(t) == (old(layouter).tables())(t),
    {
        self.rsqrt_chip.load_table(layouter);
        load_mul_operand_range_table(&self.config.mul, layouter);
    }

    /// Lays the normalization out and returns its outputs with every cell that a caller needs
    /// to link inputs and outputs elsewhere.
    pub fn assign_cells(&self, layouter: &mut Layouter, inputs: &Vec<I18>) -> (res: Result<
        LayerNormOutput,
        LayerNormError,
    >)
        requires
            self.wf(),
            inputs@.len() == self.config.k ==> self.config.fits(self.domain(), raws(inputs@)),
        ensures
            final(layouter).grows(*old(layouter)),
            inputs@.len() != self.config.k ==> *final(layouter) == *old(layouter) && (res
                matches Err(LayerNormError::InputCountMismatch { expected, got }) && expected
                == self.config.k && got == inputs@.len()),
            inputs@.len() == self.config.k ==> match value_at(
                self.domain(),
                self.config.variance(raws(inputs@)) + self.config.epsilon@,
            ) {
                Some(v) => res matches Ok(out) && {
                    &&& raws(out.outputs@) == self.config.normalized(raws(inputs@), v@)
                    &&& hold_shifted(*final(layouter), out.output_cells@, out.outputs@)
                    &&& all_in(out.output_cells@, self.config.mul.q)
                    &&& hold_raw(*final(layouter), out.input_cells@, inputs@)
                    &&& all_in(out.input_cells@, self.config.reduce_mean.sum.values)
                    &&& self.sound(*final(layouter), out.input_cells@, out.output_cells@)
                    &&& forall|setup: Setup|
                        self.ok(setup) && self.config.distinct() && old(layouter).honest(setup)
                            ==> #[trigger] final(layouter).honest(setup)
                },
                None => res matches Err(LayerNormError::Rsqrt(LookupError::InputNotInDomain(x)))
                    && x@ == self.config.variance(raws(inputs@)) + self.config.epsilon@,
            },
    {
        broadcast use lemma_i18_range;

        let cfg = self.config;
        let k: usize = cfg.k;
        if inputs.len() != k {
            return Err(LayerNormError::InputCountMismatch { expected: k, got: inputs.len() });
        }
        let ghost base = *layouter;
        let ghost domain = self.domain();
        let ghost xs = raws(inputs@);
        let (mean, mean_cell, in_cells): (I18, AssignedCell, Vec<AssignedCell>) =
            ReduceMeanChip::construct(cfg.reduce_mean).assign(layouter, inputs);
        let ghost l1 = *layouter;
        let neg_mean = I18::from_raw(-mean.raw());
        let (mean_fr, _) = shifted_i64_witness(mean.raw());
        let (neg_fr, _) = shifted_i64_witness(neg_mean.raw());
        let region: usize = layouter.region();
        layouter.enable(region, cfg.s_neg_mean, 0);
        let link_cell = layouter.assign_advice(region, cfg.mean_link, 0, mean_fr);
        let neg_cell = layouter.assign_advice(region, cfg.neg_mean, 0, neg_fr);
        layouter.region();
        layouter.constrain_equal(link_cell.cell, mean_cell.cell);
        let ghost l2 = *layouter;
        proof {
            assert(l2.grows(l1));
            assert forall|i: int| 0 <= i < in_cells@.len() implies l1.has(
                #[trigger] in_cells@[i],
            ) && in_cells@[i].value@ == inputs@[i]@ % modulus() by {
                assert(in_cells@[i].is(
                    base.next(),
                    cfg.reduce_mean.sum.values,
                    i,
                    inputs@[i]@ % modulus(),
                ));
            }
            lemma_hold(l2, l1, in_cells@);
            assert forall|i: int| 0 <= i < inputs@.len() implies is_i64(
                (#[trigger] inputs@[i])@ + neg_mean@,
            ) by {
                assert(is_i64(cfg.diffs(xs)[i]));
            }
        }
        let (diffs, diff_cells): (Vec<I18>, Vec<AssignedCell>) = add_each(
            &cfg.add,
            &cfg.unshift,
            layouter,
            inputs,
            &in_cells,
            neg_mean,
            neg_cell,
        );
        let ghost l3 = *layouter;
        assert(raws(diffs@) =~= cfg.diffs(xs));
        let raw_cells = unshift_each(&cfg.unshift, layouter, &diff_cells, &diffs);
        let ghost l4 = *layouter;
        proof {
            assert forall|i: int| 0 <= i < diffs@.len() implies is_i64(
                rescaled((#[trigger] diffs@[i])@ * diffs@[i]@),
            ) by {
                assert(is_i64(squares(cfg.diffs(xs))[i]));
                assert(cfg.diffs(xs)[i] == diffs@[i]@);
            }
        }
        let (sqs, sq_cells): (Vec<I18>, Vec<AssignedCell>) = multiply_each(
            &cfg.mul,
            layouter,
            &diffs,
            &raw_cells,
            &diffs,
            &raw_cells,
        );
        let ghost l5 = *layouter;
        assert(raws(sqs@) =~= squares(cfg.diffs(xs)));
        let root_cfg = RootConfig {
            mean: cfg.reduce_mean,
            add: cfg.add,
            unshift: cfg.unshift,
            lookup: cfg.rsqrt.lookup,
            offset: cfg.offset,
        };
        let (root, root_cell): (I18, AssignedCell) = match assign_root(
            &root_cfg,
            &self.rsqrt_chip,
            layouter,
            &sqs,
            &sq_cells,
        ) {
            Ok(v) => v,
            Err(e) => {
                return Err(LayerNormError::Rsqrt(e));
            },
        };
        let ghost l6 = *layouter;
        proof {
            assert(l6.grows(l4));
            lemma_hold(l6, l4, raw_cells@);
        }
        let (outs, out_cells): (Vec<I18>, Vec<AssignedCell>) = scale_each(
            &cfg.mul,
            layouter,
            &diffs,
            &raw_cells,
            root,
            root_cell,
        );
        proof {
            assert(layouter.grows(l2));
            lemma_hold(*layouter, l2, in_cells@);
            assert(raws(outs@).len() == outs@.len());
            assert forall|setup: Setup, env: Assignment|
                self.ok(setup) && #[trigger] layouter.sat(setup, env) implies cfg.proves(
                domain,
                cell_raws(env, in_cells@),
                shifted_raws(env, out_cells@),
            ) by {
                assert(l6.sat(setup, env) && l5.sat(setup, env) && l4.sat(setup, env));
                assert(l3.sat(setup, env) && l2.sat(setup, env) && l1.sat(setup, env));
                assert(setup.holds(cfg.s_neg_mean, env, region as int, 0));
                assert(all_added(env, in_cells@, neg_cell, diff_cells@));
                assert(all_bridged(env, raw_cells@, diff_cells@));
                assert(all_multiplied(env, raw_cells@, raw_cells@, sq_cells@));
                assert(all_scaled(env, raw_cells@, root_cell, out_cells@));
                lemma_layer_norm(
                    cfg,
                    domain,
                    env,
                    in_cells@,
                    mean_cell,
                    neg_cell,
                    diff_cells@,
                    raw_cells@,
                    sq_cells@,
                    root_cell,
                    out_cells@,
                );
            }
            assert forall|setup: Setup|
                self.ok(setup) && cfg.distinct() && base.honest(
                    setup,
                ) implies #[trigger] layouter.honest(setup) by {
                assert(l1.honest(setup));
                assert(l2.honest(setup)) by {
                    assert forall|env: Assignment| #[trigger] l2.agrees(env) implies l2.sat(
                        setup,
                        env,
                    ) by {
                        assert(l1.agrees(env));
                        assert(l1.has(mean_cell));
                        assert(setup.holds(cfg.s_neg_mean, env, region as int, 0));
                    }
                }
                assert(all_linked(setup, in_cells@)) by {
                    assert forall|i: int| 0 <= i < in_cells@.len() implies setup.cs.linked(
                        (#[trigger] in_cells@[i]).cell.column,
                    ) by {
                        assert(in_cells@[i].is(
                            base.next(),
                            cfg.reduce_mean.sum.values,
                            i,
                            inputs@[i]@ % modulus(),
                        ));
                    }
                }
                assert(l3.honest(setup));
                assert(all_linked(setup, diff_cells@));
                assert(l4.honest(setup));
                assert(all_linked(setup, raw_cells@));
                assert(l5.honest(setup));
                assert(all_linked(setup, sq_cells@));
                assert(root_cfg.ok(setup, domain));
                assert(l6.honest(setup));
            }
            assert forall|i: int| 0 <= i < in_cells@.len() implies (#[trigger] in_cells@[i]).cell.column
                == cfg.reduce_mean.sum.values by {
                assert(in_cells@[i].is(
                    base.next(),
                    cfg.reduce_mean.sum.values,
                    i,
                    inputs@[i]@ % modulus(),
                ));
            }
        }
        Ok(LayerNormOutput { outputs: outs, output_cells: out_cells, input_cells: in_cells })
    }

    /// Lays the normalization out and returns its outputs.
    pub fn assign(&self, layouter: &mut Layouter, inputs: &Vec<I18>) -> (res: Result<
        Vec<I18>,
        LayerNormError,
    >)
        requires
            self.wf(),
            inputs@.len() == self.config.k ==> self.config.fits(self.domain(), raws(inputs@)),
        ensures
            final(layouter).grows(*old(layouter)),
            inputs@.len() != self.config.k ==> *final(layouter) == *old(layouter) && (res
                matches Err(LayerNormError::InputCountMismatch { expected, got }) && expected
                == self.config.k && got == inputs@.len()),
            inputs@.len() == self.config.k ==> match value_at(
                self.domain(),
                self.config.variance(raws(inputs@)) + self.config.epsilon@,
            ) {
                Some(v) => res matches Ok(outs) && {
                    &&& raws(outs@) == self.config.normalized(raws(inputs@), v@)
                    &&& exists|ins: Seq<AssignedCell>, cells: Seq<AssignedCell>|
                        hold_raw(*final(layouter), ins, inputs@) && all_in(
                            ins,
                            self.config.reduce_mean.sum.values,
                        ) && hold_shifted(*final(layouter), cells, outs@) && all_in(
                            cells,
                            self.config.mul.q,
                        ) && #[trigger] self.sound(*final(layouter), ins, cells)
                    &&& forall|setup: Setup|
                        self.ok(setup) && self.config.distinct() && old(layouter).honest(setup)
                            ==> #[trigger] final(layouter).honest(setup)
                },
                None => res matches Err(LayerNormError::Rsqrt(LookupError::InputNotInDomain(x)))
                    && x@ == self.config.variance(raws(inputs@)) + self.config.epsilon@,
            },
    {
        match self.assign_cells(layouter, inputs) {
            Ok(out) => {
                assert(self.sound(*layouter, out.input_cells@, out.output_cells@));
                Ok(out.outputs)
            },
            Err(e) => Err(e),
        }
    }
}

/// The cells of a satisfied normalization hold the normalized inputs.
proof fn lemma_layer_norm(
    cfg: LayerNormConfig,
    domain: Seq<(I18, I18)>,
    env: Assignment,
    ins: Seq<AssignedCell>,
    mean: AssignedCell,
    neg: AssignedCell,
    diffs: Seq<AssignedCell>,
    raw: Seq<AssignedCell>,
    sqs: Seq<AssignedCell>,
    root: AssignedCell,
    outs: Seq<AssignedCell>,
)
    requires
        ins.len() > 0,
        diffs.len() == ins.len(),
        raw.len() == ins.len(),
        sqs.len() == ins.len(),
        outs.len() == ins.len(),
        mean_sound(cfg.reduce_mean, env, mean, ins),
        negation_gate(env.cell(mean.cell), env.cell(neg.cell)) % modulus() == 0,
        all_added(env, ins, neg, diffs),
        all_bridged(env, raw, diffs),
        all_multiplied(env, raw, raw, sqs),
        (forall|i: int| 0 <= i < sqs.len() ==> is_shifted(env.cell((#[trigger] sqs[i]).cell)))
            ==> root_sound(cfg.reduce_mean, cfg.epsilon, domain, env, sqs, root),
        all_scaled(env, raw, root, outs),
    ensures
        cfg.proves(domain, cell_raws(env, ins), shifted_raws(env, outs)),
{
    let xs = cell_raws(env, ins);
    assert forall|i: int| 0 <= i < xs.len() implies is_i64(#[trigger] xs[i]) by {
        assert(is_shifted(env.cell(diffs[i].cell)));
    }
    assert(is_shifted(env.cell(diffs[0].cell)));
    lemma_negation_sound(env.cell(mean.cell), env.cell(neg.cell));
    let ds = cfg.diffs(xs);
    assert forall|i: int| 0 <= i < ds.len() implies centered(env.cell((#[trigger] raw[i]).cell))
        == ds[i] by {
        assert(is_shifted(env.cell(diffs[i].cell)));
    }
    assert forall|i: int| 0 <= i < sqs.len() implies is_shifted(
        env.cell((#[trigger] sqs[i]).cell),
    ) && unshifted(env.cell(sqs[i].cell)) == squares(ds)[i] by {
        assert(centered(env.cell(raw[i].cell)) == ds[i]);
    }
    assert(shifted_raws(env, sqs) =~= squares(ds));
    let v = centered(env.cell(root.cell));
    assert(shifted_raws(env, outs) =~= cfg.normalized(xs, v)) by {
        assert forall|i: int| 0 <= i < outs.len() implies #[trigger] shifted_raws(env, outs)[i]
            == cfg.normalized(xs, v)[i] by {
            assert(is_shifted(env.cell(outs[i].cell)));
            assert(centered(env.cell(raw[i].cell)) == ds[i]);
        }
    }
    assert(is_function_row(domain, cfg.variance(xs) + cfg.epsilon@, v));
}

} // verus!
