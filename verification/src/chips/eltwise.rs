//! Elementwise addition and multiplication of fixed-point numbers.
//!
//! A range check bounds a cell in a region of its own. A gate's cell is bounded only where it
//! is linked to such a cell, so every operand, quotient and remainder below is range-checked
//! and linked.
use vstd::arithmetic::power::*;
use vstd::prelude::*;

use crate::chips::lookup_range_check::{byte_table, LookupRangeCheckChip, LookupRangeCheckConfig};
use crate::chips::range_check::{RangeCheckChip, RangeCheckConfig};
use crate::digits::lemma_pow_64;
use crate::field::{
    centered, lemma_centered, lemma_centered_congruent, lemma_congruent_product, modulus,
};
use crate::field_convert::{
    i128_to_fr, i64_to_fr, is_shifted, shifted_i64_witness, unshifted, SIGNED_SHIFT,
};
use crate::fixed_point::{
    is_i64, lemma_i18_range, lemma_product_range, lemma_rescale_unique, requantize_mul, rescaled,
    rescale_remainder, I18, SCALE_18,
};
use crate::layout::{cell_at, AssignedCell, Cell, Layouter, Mark};
use crate::plonk::{
    group_extends, lemma_at_range, Assignment, Column, ColumnKind, ConstraintSystem,
    Expression, Selector, Setup,
};

verus! {

/// Bits that bound a remainder: `2^60` exceeds the scale.
pub const REMAINDER_BITS: usize = 60;

/// Bits of a shifted 64-bit integer.
pub const SHIFTED_BITS: usize = 64;

#[derive(Clone, Copy, Debug)]
pub struct EltwiseAddConfig {
    pub a: Column,
    pub b: Column,
    pub c: Column,
    pub s_add: Selector,
    pub range_a: RangeCheckConfig,
    pub range_b: RangeCheckConfig,
    pub range_c: RangeCheckConfig,
}

impl EltwiseAddConfig {
    /// The range checks bound the three columns to 64 bits, with one bit column.
    pub open spec fn wf(self) -> bool {
        &&& self.range_a.value == self.a && self.range_a.n_bits == 64
        &&& self.range_b.value == self.b && self.range_b.n_bits == 64
        &&& self.range_c.value == self.c && self.range_c.n_bits == 64
        &&& self.range_b.bits == self.range_a.bits
        &&& self.range_c.bits == self.range_a.bits
    }

    pub open spec fn distinct(self) -> bool {
        &&& self.a != self.b && self.a != self.c && self.b != self.c
        &&& self.a != self.range_a.bits && self.b != self.range_a.bits && self.c
            != self.range_a.bits
    }

    pub open spec fn ok(self, setup: Setup) -> bool {
        &&& forall|env: Assignment, r: int, o: int| #[trigger]
            setup.holds(self.s_add, env, r, o) <==> (env.at(r, self.a, o) + env.at(r, self.b, o)
                - env.at(r, self.c, o) - SIGNED_SHIFT) % modulus() == 0
        &&& self.range_a.ok(setup)
        &&& self.range_b.ok(setup)
        &&& self.range_c.ok(setup)
        &&& setup.cs.linked(self.a)
        &&& setup.cs.linked(self.b)
        &&& setup.cs.linked(self.c)
    }
}

/// The operand and sum cells of an addition, all shifted.
#[derive(Clone, Copy, Debug)]
pub struct AddCells {
    pub a: AssignedCell,
    pub b: AssignedCell,
    pub c: AssignedCell,
}

impl AddCells {
    /// The cells hold shifted 64-bit integers, the third the sum of the other two.
    pub open spec fn sound(self, env: Assignment) -> bool {
        let (a, b, c) = (env.cell(self.a.cell), env.cell(self.b.cell), env.cell(self.c.cell));
        &&& is_shifted(a) && is_shifted(b) && is_shifted(c)
        &&& unshifted(c) == unshifted(a) + unshifted(b)
    }
}

impl EltwiseAddConfig {
    /// The layout after an addition.
    pub closed spec fn trace(self, t: Seq<Mark>) -> Seq<Mark> {
        let (a, b, c) = (
            cell_at(t.len(), self.a, 0),
            cell_at(t.len(), self.b, 0),
            cell_at(t.len(), self.c, 0),
        );
        let row = t.push(Mark::Region).push(
            Mark::Enable { region: t.len() as usize, selector: self.s_add, offset: 0 },
        ).push(Mark::Advice { cell: a }).push(Mark::Advice { cell: b }).push(
            Mark::Advice { cell: c },
        );
        let t1 = self.range_a.trace(row);
        let t2 = self.range_b.trace(t1);
        let t3 = self.range_c.trace(t2);
        t3.push(Mark::Region).push(
            Mark::Equal { left: a, right: self.range_a.bounded_cell(row) },
        ).push(Mark::Equal { left: b, right: self.range_b.bounded_cell(t1) }).push(
            Mark::Equal { left: c, right: self.range_c.bounded_cell(t2) },
        )
    }
}

/// Adds two numbers in a row of its own, range-checks the operands and the sum and links every
/// range check to the row.
pub fn assign_add_row(add: &EltwiseAddConfig, layouter: &mut Layouter, a_raw: i64, b_raw: i64) -> (cells:
    AddCells)
    requires
        add.wf(),
        is_i64(a_raw + b_raw),
    ensures
        final(layouter).grows(*old(layouter)),
        final(layouter).trace() == add.trace(old(layouter).trace()),
        cells.a.is(old(layouter).next(), add.a, 0, a_raw + SIGNED_SHIFT),
        cells.b.is(old(layouter).next(), add.b, 0, b_raw + SIGNED_SHIFT),
        cells.c.is(old(layouter).next(), add.c, 0, a_raw + b_raw + SIGNED_SHIFT),
        final(layouter).has(cells.a),
        final(layouter).has(cells.b),
        final(layouter).has(cells.c),
        forall|setup: Setup, env: Assignment|
            add.ok(setup) && #[trigger] final(layouter).sat(setup, env) ==> cells.sound(env),
        forall|setup: Setup|
            add.ok(setup) && add.distinct() && old(layouter).honest(setup) ==> #[trigger] final(layouter).honest(setup),
{
    let ghost base = *layouter;
    let c_raw: i64 = a_raw + b_raw;
    let (a_fr, a_shift) = shifted_i64_witness(a_raw);
    let (b_fr, b_shift) = shifted_i64_witness(b_raw);
    let (c_fr, c_shift) = shifted_i64_witness(c_raw);

    let region: usize = layouter.region();
    layouter.enable(region, add.s_add, 0);
    let a = layouter.assign_advice(region, add.a, 0, a_fr);
    let b = layouter.assign_advice(region, add.b, 0, b_fr);
    let c = layouter.assign_advice(region, add.c, 0, c_fr);
    let ghost main = *layouter;

    let ra = RangeCheckChip::construct(add.range_a).assign(layouter, a_fr, a_shift);
    let ghost l1 = *layouter;
    let rb = RangeCheckChip::construct(add.range_b).assign(layouter, b_fr, b_shift);
    let ghost l2 = *layouter;
    let rc = RangeCheckChip::construct(add.range_c).assign(layouter, c_fr, c_shift);
    let ghost l3 = *layouter;

    layouter.region();
    layouter.constrain_equal(a.cell, ra.cell);
    layouter.constrain_equal(b.cell, rb.cell);
    layouter.constrain_equal(c.cell, rc.cell);
    let cells = AddCells { a, b, c };
    proof {
        lemma_pow_64();
        assert forall|setup: Setup, env: Assignment|
            add.ok(setup) && #[trigger] layouter.sat(setup, env) implies cells.sound(env) by {
            assert(l3.sat(setup, env));
            assert(l2.sat(setup, env));
            assert(l1.sat(setup, env));
            assert(main.sat(setup, env));
            assert(setup.holds(add.s_add, env, region as int, 0));
        }
        assert forall|setup: Setup|
            add.ok(setup) && add.distinct() && base.honest(
                setup,
            ) implies #[trigger] layouter.honest(setup) by {
            assert(main.honest(setup)) by {
                assert forall|env: Assignment| #[trigger] main.agrees(env) implies main.sat(
                    setup,
                    env,
                ) by {
                    assert(base.agrees(env));
                    assert(setup.holds(add.s_add, env, region as int, 0));
                }
            }
            assert(l1.honest(setup));
            assert(l2.honest(setup));
            assert(l3.honest(setup));
            assert forall|env: Assignment| #[trigger] layouter.agrees(env) implies layouter.sat(
                setup,
                env,
            ) by {
                assert(l3.agrees(env));
                assert(l2.agrees(env));
                assert(l1.agrees(env));
                assert(main.agrees(env));
                assert(l3.sat(setup, env));
            }
        }
    }
    cells
}

pub struct EltwiseAddChip {
    pub config: EltwiseAddConfig,
}

impl EltwiseAddChip {
    pub fn configure(
        meta: &mut ConstraintSystem,
        a: Column,
        b: Column,
        c: Column,
        bits: Column,
    ) -> (config: EltwiseAddConfig)
        ensures
            config.wf(),
            config.a == a && config.b == b && config.c == c && config.range_a.bits == bits,
            final(meta).same_columns(*old(meta)),
            final(meta).rules@.len() == old(meta).rules@.len() + 7,
            final(meta).extends(*old(meta)),
            forall|setup: Setup|
                setup.cs.extends(*final(meta)) ==> #[trigger] config.ok(setup),
            forall|setup: Setup| #[trigger]
                setup.cs.extends(*final(meta)) ==> setup.rests_between(*old(meta), *final(meta)),
    {
        meta.enable_equality(a);
        meta.enable_equality(b);
        meta.enable_equality(c);
        let shift = Expression::constant(i128_to_fr(SIGNED_SHIFT));
        let s_add = meta.gate(
            Expression::cell(a).plus(Expression::cell(b)).minus(Expression::cell(c)).minus(shift),
        );
        let range_a = RangeCheckChip::configure(meta, a, bits, SHIFTED_BITS);
        let range_b = RangeCheckChip::configure(meta, b, bits, SHIFTED_BITS);
        let range_c = RangeCheckChip::configure(meta, c, bits, SHIFTED_BITS);
        let config = EltwiseAddConfig { a, b, c, s_add, range_a, range_b, range_c };
        proof {
            broadcast use group_extends;

            assert forall|setup: Setup| setup.cs.extends(*meta) implies #[trigger] config.ok(
                setup,
            ) by {}
        }
        config
    }

    pub fn construct(config: EltwiseAddConfig) -> (chip: Self)
        ensures
            chip.config == config,
    {
        EltwiseAddChip { config }
    }

    /// Assigns `a + b` and returns the cell of the shifted sum.
    pub fn assign(&self, layouter: &mut Layouter, a: I18, b: I18) -> (c: AssignedCell)
        requires
            self.config.wf(),
            is_i64(a@ + b@),
        ensures
            final(layouter).grows(*old(layouter)),
            c.is(old(layouter).next(), self.config.c, 0, a@ + b@ + SIGNED_SHIFT),
            final(layouter).has(c),
            forall|env: Assignment| #[trigger]
                final(layouter).agrees(env) ==> {
                    let r = old(layouter).next();
                    &&& env.at(r, self.config.a, 0) == a@ + SIGNED_SHIFT
                    &&& env.at(r, self.config.b, 0) == b@ + SIGNED_SHIFT
                },
            forall|setup: Setup, env: Assignment|
                self.config.ok(setup) && #[trigger] final(layouter).sat(setup, env) ==> {
                    let r = old(layouter).next();
                    let (x, y, z) = (
                        env.at(r, self.config.a, 0),
                        env.at(r, self.config.b, 0),
                        env.cell(c.cell),
                    );
                    &&& is_shifted(x) && is_shifted(y) && is_shifted(z)
                    &&& unshifted(z) == unshifted(x) + unshifted(y)
                },
            forall|setup: Setup|
                self.config.ok(setup) && self.config.distinct() && old(layouter).honest(setup)
                    ==> #[trigger] final(layouter).honest(setup),
    {
        let cells = assign_add_row(&self.config, layouter, a.raw(), b.raw());
        assert(layouter.has(cells.a) && layouter.has(cells.b));
        cells.c
    }
}

#[derive(Clone, Copy, Debug)]
pub struct EltwiseMulConfig {
    pub a: Column,
    pub b: Column,
    pub q: Column,
    pub r: Column,
    pub slack: Column,
    pub s_mul: Selector,
    pub s_slack: Selector,
    pub range_q: RangeCheckConfig,
    pub range_r: RangeCheckConfig,
    pub range_r_slack: RangeCheckConfig,
    /// Shifted copies of the operands, whose range is checked.
    pub a_shift: Column,
    pub b_shift: Column,
    pub s_shift: Selector,
    pub range_a: LookupRangeCheckConfig,
    pub range_b: LookupRangeCheckConfig,
}

impl EltwiseMulConfig {
    pub open spec fn wf(self) -> bool {
        &&& self.range_a.value == self.a_shift && self.range_a.n_bits == 64
        &&& self.range_b.value == self.b_shift && self.range_b.n_bits == 64
        &&& self.range_q.value == self.q && self.range_q.n_bits == 64
        &&& self.range_r.value == self.r && self.range_r.n_bits == 60
        &&& self.range_r_slack.value == self.slack && self.range_r_slack.n_bits == 60
        &&& self.range_b.limbs == self.range_a.limbs
        &&& self.range_q.bits == self.range_a.limbs
        &&& self.range_r.bits == self.range_a.limbs
        &&& self.range_r_slack.bits == self.range_a.limbs
        &&& self.range_a.table != self.range_b.table
    }

    pub open spec fn distinct(self) -> bool {
        let bits = self.range_a.limbs;
        &&& self.a != self.b && self.a != self.q && self.a != self.r && self.a != self.slack
            && self.a != self.a_shift && self.a != self.b_shift && self.a != bits
        &&& self.b != self.q && self.b != self.r && self.b != self.slack && self.b != self.a_shift
            && self.b != self.b_shift && self.b != bits
        &&& self.q != self.r && self.q != self.slack && self.q != self.a_shift && self.q
            != self.b_shift && self.q != bits
        &&& self.r != self.slack && self.r != self.a_shift && self.r != self.b_shift && self.r
            != bits
        &&& self.slack != self.a_shift && self.slack != self.b_shift && self.slack != bits
        &&& self.a_shift != self.b_shift && self.a_shift != bits && self.b_shift != bits
    }

    /// The rules of the configured selectors and range checks.
    pub open spec fn rules(self, setup: Setup) -> bool {
        &&& forall|env: Assignment, r: int, o: int| #[trigger]
            setup.holds(self.s_mul, env, r, o) <==> mul_gate(
                env.at(r, self.a, o),
                env.at(r, self.b, o),
                env.at(r, self.q, o),
                env.at(r, self.r, o),
            ) % modulus() == 0
        &&& forall|env: Assignment, r: int, o: int| #[trigger]
            setup.holds(self.s_slack, env, r, o) <==> slack_gate(
                env.at(r, self.r, o),
                env.at(r, self.slack, o),
            ) % modulus() == 0
        &&& forall|env: Assignment, r: int, o: int| #[trigger]
            setup.holds(self.s_shift, env, r, o) <==> {
                &&& shift_gate(env.at(r, self.a, o), env.at(r, self.a_shift, o)) % modulus() == 0
                &&& shift_gate(env.at(r, self.b, o), env.at(r, self.b_shift, o)) % modulus() == 0
            }
        &&& self.range_a.rules(setup)
        &&& self.range_b.rules(setup)
        &&& self.range_q.ok(setup)
        &&& self.range_r.ok(setup)
        &&& self.range_r_slack.ok(setup)
        &&& setup.cs.linked(self.a)
        &&& setup.cs.linked(self.b)
        &&& setup.cs.linked(self.q)
        &&& setup.cs.linked(self.r)
        &&& setup.cs.linked(self.slack)
        &&& setup.cs.linked(self.a_shift)
        &&& setup.cs.linked(self.b_shift)
    }

    /// The byte tables of the operand checks are loaded.
    pub open spec fn loaded(self, setup: Setup) -> bool {
        self.range_a.loaded(setup) && self.range_b.loaded(setup)
    }

    pub open spec fn ok(self, setup: Setup) -> bool {
        self.rules(setup) && self.loaded(setup)
    }

    /// Rows that a lookup of the operand checks is off at satisfy it.
    pub open spec fn rests(self, setup: Setup) -> bool {
        setup.rests(self.range_a.s_limb) && setup.rests(self.range_b.s_limb)
    }

    pub proof fn lemma_rests(self, setup: Setup)
        requires
            self.ok(setup),
        ensures
            self.rests(setup),
    {
        self.range_a.lemma_rests(setup);
        self.range_b.lemma_rests(setup);
    }
}

/// Vanishes where a product is the shifted quotient times the scale, plus the remainder.
pub open spec fn mul_gate(a: int, b: int, q: int, r: int) -> int {
    a * b - (q * SCALE_18 - SIGNED_SHIFT * SCALE_18) - r
}

/// Vanishes where remainder and slack add up to the largest remainder.
pub open spec fn slack_gate(r: int, slack: int) -> int {
    slack + r - (SCALE_18 - 1)
}

/// Vanishes where the second value is the first, shifted.
pub open spec fn shift_gate(a: int, a_shift: int) -> int {
    a_shift - a - SIGNED_SHIFT
}

/// The shifted quotient in `q`, unshifted and times the scale.
pub(crate) fn rescale_expression(q: Column) -> (e: Expression)
    ensures
        forall|env: Assignment, r: int, o: int| #[trigger]
            e.eval(env, r, o) == env.at(r, q, o) * SCALE_18 - SIGNED_SHIFT * SCALE_18,
{
    let scale = Expression::constant(i128_to_fr(SCALE_18));
    let shift_scaled = Expression::constant(i128_to_fr(SIGNED_SHIFT * SCALE_18));
    Expression::cell(q).times(scale).minus(shift_scaled)
}

pub(crate) fn slack_expression(r_column: Column, slack: Column) -> (e: Expression)
    ensures
        forall|env: Assignment, r: int, o: int| #[trigger]
            e.eval(env, r, o) == slack_gate(env.at(r, r_column, o), env.at(r, slack, o)),
{
    let bound = Expression::constant(i128_to_fr(SCALE_18 - 1));
    Expression::cell(slack).plus(Expression::cell(r_column)).minus(bound)
}

pub(crate) fn shift_expression(a: Column, a_shift: Column) -> (e: Expression)
    ensures
        forall|env: Assignment, r: int, o: int| #[trigger]
            e.eval(env, r, o) == shift_gate(env.at(r, a, o), env.at(r, a_shift, o)),
{
    let shift = Expression::constant(i128_to_fr(SIGNED_SHIFT));
    Expression::cell(a_shift).minus(Expression::cell(a)).minus(shift)
}

/// A value whose shifted copy is a shifted 64-bit integer is that integer.
pub proof fn lemma_shift_sound(a: int, a_shift: int)
    requires
        0 <= a < modulus(),
        is_shifted(a_shift),
        shift_gate(a, a_shift) % modulus() == 0,
    ensures
        centered(a) == unshifted(a_shift),
        is_i64(centered(a)),
{
    lemma_centered(unshifted(a_shift), a);
}

pub proof fn lemma_shift_complete(v: int)
    requires
        is_i64(v),
    ensures
        shift_gate(v % modulus(), v + SIGNED_SHIFT) % modulus() == 0,
{
}

/// Bounded remainder and slack leave the remainder below the scale.
pub proof fn lemma_slack_sound(r: int, slack: int)
    requires
        0 <= r < 0x1000_0000_0000_0000int,
        0 <= slack < 0x1000_0000_0000_0000int,
        slack_gate(r, slack) % modulus() == 0,
    ensures
        r < SCALE_18,
        slack == SCALE_18 - 1 - r,
{
}

/// Bounded cells that meet the product gate hold the requantized product.
pub proof fn lemma_mul_sound(a: int, b: int, q: int, r: int)
    requires
        0 <= a < modulus(),
        0 <= b < modulus(),
        is_i64(centered(a)),
        is_i64(centered(b)),
        is_shifted(q),
        0 <= r < SCALE_18,
        mul_gate(a, b, q, r) % modulus() == 0,
    ensures
        unshifted(q) == rescaled(centered(a) * centered(b)),
        r == rescale_remainder(centered(a) * centered(b)),
{
    let (x, y) = (centered(a), centered(b));
    lemma_centered_congruent(a);
    lemma_centered_congruent(b);
    lemma_congruent_product(a, b, x, y);
    lemma_product_range(x, y);
    let v = x * y;
    let w = a * b;
    assert((w - v) % modulus() == 0);
    assert(v == unshifted(q) * SCALE_18 + r);
    lemma_rescale_unique(v, unshifted(q), r);
}

pub proof fn lemma_mul_complete(x: int, y: int)
    requires
        is_i64(x),
        is_i64(y),
    ensures
        mul_gate(
            x % modulus(),
            y % modulus(),
            rescaled(x * y) + SIGNED_SHIFT,
            rescale_remainder(x * y),
        ) % modulus() == 0,
{
    let p = modulus();
    assert((x % p - x) % p == 0);
    assert((y % p - y) % p == 0);
    lemma_congruent_product(x % p, y % p, x, y);
    let w = (x % p) * (y % p);
    let v = x * y;
    vstd::arithmetic::div_mod::lemma_fundamental_div_mod(v, SCALE_18 as int);
}

/// The operand and quotient cells of a multiplication, the quotient shifted.
#[derive(Clone, Copy, Debug)]
pub struct MulCells {
    pub a: AssignedCell,
    pub b: AssignedCell,
    pub q: AssignedCell,
}

impl MulCells {
    /// The operands are 64-bit integers and the quotient is their product, requantized.
    pub open spec fn sound(self, env: Assignment) -> bool {
        let (a, b, q) = (env.cell(self.a.cell), env.cell(self.b.cell), env.cell(self.q.cell));
        &&& is_i64(centered(a)) && is_i64(centered(b)) && is_shifted(q)
        &&& unshifted(q) == rescaled(centered(a) * centered(b))
    }
}

/// Loads the byte tables of a multiplication's operand checks. Called once in a synthesis.
pub fn load_mul_operand_range_table(mul: &EltwiseMulConfig, layouter: &mut Layouter)
    requires
        mul.wf(),
        (old(layouter).tables())(mul.range_a.table.0 as int).len() == 0,
        (old(layouter).tables())(mul.range_b.table.0 as int).len() == 0,
    ensures
        final(layouter).only_loads(*old(layouter)),
        final(layouter).trace() == mul.tables_trace(old(layouter).trace()),
        (final(layouter).tables())(mul.range_a.table.0 as int) == byte_table(),
        (final(layouter).tables())(mul.range_b.table.0 as int) == byte_table(),
        forall|t: int|
            t != mul.range_a.table.0 && t != mul.range_b.table.0 ==> #[trigger] (final(layouter).tables())(t)
                == (old(layouter).tables())(t),
{
    LookupRangeCheckChip::construct(mul.range_a).load_table(layouter);
    LookupRangeCheckChip::construct(mul.range_b).load_table(layouter);
}

impl EltwiseMulConfig {
    /// The layout after the shifted copies of a multiplication's operands.
    pub closed spec fn shifts_trace(self, t: Seq<Mark>, region: nat, offset: int) -> Seq<Mark> {
        t.push(
            Mark::Enable {
                region: region as usize,
                selector: self.s_shift,
                offset: offset as usize,
            },
        ).push(Mark::Advice { cell: cell_at(region, self.a_shift, offset) }).push(
            Mark::Advice { cell: cell_at(region, self.b_shift, offset) },
        )
    }

    /// The layout after the range checks of the shifted operands.
    pub closed spec fn ranges_trace(self, t: Seq<Mark>, a_shift: Cell, b_shift: Cell) -> Seq<Mark> {
        let t1 = self.range_a.trace(t);
        let t2 = self.range_b.trace(t1);
        t2.push(Mark::Region).push(
            Mark::Equal { left: a_shift, right: self.range_a.bounded_cell(t) },
        ).push(Mark::Equal { left: b_shift, right: self.range_b.bounded_cell(t1) })
    }

    /// The layout after a multiplication.
    pub closed spec fn trace(self, t: Seq<Mark>) -> Seq<Mark> {
        let region = t.len() as usize;
        let (q, r, slack) = (
            cell_at(t.len(), self.q, 0),
            cell_at(t.len(), self.r, 0),
            cell_at(t.len(), self.slack, 0),
        );
        let row = t.push(Mark::Region).push(
            Mark::Enable { region, selector: self.s_mul, offset: 0 },
        ).push(Mark::Enable { region, selector: self.s_slack, offset: 0 }).push(
            Mark::Advice { cell: cell_at(t.len(), self.a, 0) },
        ).push(Mark::Advice { cell: cell_at(t.len(), self.b, 0) }).push(
            Mark::Advice { cell: q },
        ).push(Mark::Advice { cell: r }).push(Mark::Advice { cell: slack });
        let shifts = self.shifts_trace(row, t.len(), 0);
        let t1 = self.ranges_trace(
            shifts,
            cell_at(t.len(), self.a_shift, 0),
            cell_at(t.len(), self.b_shift, 0),
        );
        let t2 = self.range_q.trace(t1);
        let t3 = self.range_r.trace(t2);
        let t4 = self.range_r_slack.trace(t3);
        t4.push(Mark::Region).push(
            Mark::Equal { left: q, right: self.range_q.bounded_cell(t1) },
        ).push(Mark::Equal { left: r, right: self.range_r.bounded_cell(t2) }).push(
            Mark::Equal { left: slack, right: self.range_r_slack.bounded_cell(t3) },
        )
    }

    /// The layout after the byte tables.
    pub closed spec fn tables_trace(self, t: Seq<Mark>) -> Seq<Mark> {
        self.range_b.table_trace(self.range_a.table_trace(t))
    }
}

/// Witnesses the shifted copies of a multiplication's operands in a row of the caller's region.
pub(crate) fn assign_mul_operand_shifts(
    mul: &EltwiseMulConfig,
    layouter: &mut Layouter,
    region: usize,
    offset: usize,
    a: I18,
    b: I18,
) -> (cells: (AssignedCell, AssignedCell))
    ensures
        cells.0.is(region as int, mul.a_shift, offset as int, a@ + SIGNED_SHIFT),
        cells.1.is(region as int, mul.b_shift, offset as int, b@ + SIGNED_SHIFT),
        final(layouter).trace() == mul.shifts_trace(
            old(layouter).trace(),
            region as nat,
            offset as int,
        ),
        final(layouter).next() == old(layouter).next() + 3,
        final(layouter).known == old(layouter).known,
        final(layouter).tables() == old(layouter).tables(),
        forall|env: Assignment| #[trigger]
            final(layouter).agrees(env) <==> old(layouter).agrees(env) && env.cell(cells.0.cell)
                == a@ + SIGNED_SHIFT && env.cell(cells.1.cell) == b@ + SIGNED_SHIFT,
        forall|setup: Setup, env: Assignment| #[trigger]
            final(layouter).sat(setup, env) <==> old(layouter).sat(setup, env) && setup.holds(
                mul.s_shift,
                env,
                region as int,
                offset as int,
            ),
        forall|r: int, c: Column, o: int| #[trigger]
            final(layouter).assigned(r, c, o) <==> old(layouter).assigned(r, c, o) || (r == region
                && (c == mul.a_shift || c == mul.b_shift) && o == offset),
        old(layouter).fresh() && region < old(layouter).next() ==> final(layouter).fresh(),
        old(layouter).consistent() && mul.a_shift != mul.b_shift && !old(layouter).assigned(
            region as int,
            mul.a_shift,
            offset as int,
        ) && !old(layouter).assigned(region as int, mul.b_shift, offset as int)
            ==> final(layouter).consistent(),
{
    layouter.enable(region, mul.s_shift, offset);
    let (a_fr, _) = shifted_i64_witness(a.raw());
    let (b_fr, _) = shifted_i64_witness(b.raw());
    let a_cell = layouter.assign_advice(region, mul.a_shift, offset, a_fr);
    let b_cell = layouter.assign_advice(region, mul.b_shift, offset, b_fr);
    (a_cell, b_cell)
}

/// Range-checks the shifted operands and links the checked cells to them.
pub(crate) fn link_mul_operand_ranges(
    mul: &EltwiseMulConfig,
    layouter: &mut Layouter,
    a: I18,
    b: I18,
    a_shift: AssignedCell,
    b_shift: AssignedCell,
)
    requires
        mul.wf(),
        a_shift.cell.column == mul.a_shift && a_shift.value@ == a@ + SIGNED_SHIFT,
        b_shift.cell.column == mul.b_shift && b_shift.value@ == b@ + SIGNED_SHIFT,
        old(layouter).has(a_shift),
        old(layouter).has(b_shift),
    ensures
        final(layouter).grows(*old(layouter)),
        final(layouter).trace() == mul.ranges_trace(
            old(layouter).trace(),
            a_shift.cell,
            b_shift.cell,
        ),
        forall|setup: Setup, env: Assignment|
            mul.ok(setup) && #[trigger] final(layouter).sat(setup, env) ==> is_shifted(
                env.cell(a_shift.cell),
            ) && is_shifted(env.cell(b_shift.cell)),
        forall|setup: Setup|
            mul.ok(setup) && mul.distinct() && old(layouter).honest(setup)
                ==> #[trigger] final(layouter).honest(setup),
{
    broadcast use lemma_i18_range;

    let ghost base = *layouter;
    let (a_fr, a_raw) = shifted_i64_witness(a.raw());
    let ra = LookupRangeCheckChip::construct(mul.range_a).assign(layouter, a_fr, a_raw);
    let ghost l1 = *layouter;
    let (b_fr, b_raw) = shifted_i64_witness(b.raw());
    let rb = LookupRangeCheckChip::construct(mul.range_b).assign(layouter, b_fr, b_raw);
    let ghost l2 = *layouter;
    layouter.region();
    layouter.constrain_equal(a_shift.cell, ra.cell);
    layouter.constrain_equal(b_shift.cell, rb.cell);
    proof {
        lemma_pow_64();
        assert forall|setup: Setup, env: Assignment|
            mul.ok(setup) && #[trigger] layouter.sat(setup, env) implies is_shifted(
            env.cell(a_shift.cell),
        ) && is_shifted(env.cell(b_shift.cell)) by {
            assert(l2.sat(setup, env));
            assert(l1.sat(setup, env));
        }
        assert forall|setup: Setup|
            mul.ok(setup) && mul.distinct() && base.honest(
                setup,
            ) implies #[trigger] layouter.honest(setup) by {
            assert(l1.honest(setup));
            assert(l2.honest(setup));
            assert forall|env: Assignment| #[trigger] layouter.agrees(env) implies layouter.sat(
                setup,
                env,
            ) by {
                assert(l2.agrees(env));
                assert(l1.agrees(env));
                assert(base.agrees(env));
                assert(l2.sat(setup, env));
            }
        }
    }
}

/// Multiplies two numbers in a row of its own, range-checks operands, quotient, remainder and
/// slack and links every range check to the row.
pub fn assign_mul_row(mul: &EltwiseMulConfig, layouter: &mut Layouter, a_val: I18, b_val: I18) -> (cells:
    MulCells)
    requires
        mul.wf(),
        is_i64(rescaled(a_val@ * b_val@)),
    ensures
        final(layouter).grows(*old(layouter)),
        final(layouter).trace() == mul.trace(old(layouter).trace()),
        cells.a.is(old(layouter).next(), mul.a, 0, a_val@ % modulus()),
        cells.b.is(old(layouter).next(), mul.b, 0, b_val@ % modulus()),
        cells.q.is(old(layouter).next(), mul.q, 0, rescaled(a_val@ * b_val@) + SIGNED_SHIFT),
        final(layouter).has(cells.a),
        final(layouter).has(cells.b),
        final(layouter).has(cells.q),
        forall|setup: Setup, env: Assignment|
            mul.ok(setup) && #[trigger] final(layouter).sat(setup, env) ==> cells.sound(env),
        forall|setup: Setup|
            mul.ok(setup) && mul.distinct() && old(layouter).honest(setup)
                ==> #[trigger] final(layouter).honest(setup),
{
    broadcast use {lemma_i18_range, lemma_at_range};

    let ghost base = *layouter;
    let (q, r): (I18, i128) = requantize_mul(a_val, b_val).unwrap();
    let slack: i128 = SCALE_18 - 1 - r;
    let (q_fr, q_raw) = shifted_i64_witness(q.raw());
    let r_fr = i128_to_fr(r);
    let slack_fr = i128_to_fr(slack);

    let region: usize = layouter.region();
    layouter.enable(region, mul.s_mul, 0);
    layouter.enable(region, mul.s_slack, 0);
    let a_cell = layouter.assign_advice(region, mul.a, 0, i64_to_fr(a_val.raw()));
    let b_cell = layouter.assign_advice(region, mul.b, 0, i64_to_fr(b_val.raw()));
    let q_cell = layouter.assign_advice(region, mul.q, 0, q_fr);
    let r_cell = layouter.assign_advice(region, mul.r, 0, r_fr);
    let slack_cell = layouter.assign_advice(region, mul.slack, 0, slack_fr);
    let (a_shift, b_shift) = assign_mul_operand_shifts(mul, layouter, region, 0, a_val, b_val);
    let ghost main = *layouter;

    link_mul_operand_ranges(mul, layouter, a_val, b_val, a_shift, b_shift);
    let ghost l1 = *layouter;
    let rq = RangeCheckChip::construct(mul.range_q).assign(layouter, q_fr, q_raw);
    let ghost l2 = *layouter;
    let rr = RangeCheckChip::construct(mul.range_r).assign(layouter, r_fr, r);
    let ghost l3 = *layouter;
    let rs = RangeCheckChip::construct(mul.range_r_slack).assign(layouter, slack_fr, slack);
    let ghost l4 = *layouter;

    layouter.region();
    layouter.constrain_equal(q_cell.cell, rq.cell);
    layouter.constrain_equal(r_cell.cell, rr.cell);
    layouter.constrain_equal(slack_cell.cell, rs.cell);
    let cells = MulCells { a: a_cell, b: b_cell, q: q_cell };
    proof {
        lemma_pow_64();
        assert forall|setup: Setup, env: Assignment|
            mul.ok(setup) && #[trigger] layouter.sat(setup, env) implies cells.sound(env) by {
            assert(l4.sat(setup, env));
            assert(l3.sat(setup, env));
            assert(l2.sat(setup, env));
            assert(l1.sat(setup, env));
            assert(main.sat(setup, env));
            let g = region as int;
            assert(setup.holds(mul.s_mul, env, g, 0));
            assert(setup.holds(mul.s_slack, env, g, 0));
            assert(setup.holds(mul.s_shift, env, g, 0));
            lemma_shift_sound(env.at(g, mul.a, 0), env.at(g, mul.a_shift, 0));
            lemma_shift_sound(env.at(g, mul.b, 0), env.at(g, mul.b_shift, 0));
            lemma_slack_sound(env.at(g, mul.r, 0), env.at(g, mul.slack, 0));
            lemma_mul_sound(
                env.at(g, mul.a, 0),
                env.at(g, mul.b, 0),
                env.at(g, mul.q, 0),
                env.at(g, mul.r, 0),
            );
        }
        assert forall|setup: Setup|
            mul.ok(setup) && mul.distinct() && base.honest(
                setup,
            ) implies #[trigger] layouter.honest(setup) by {
            assert(main.honest(setup)) by {
                assert forall|env: Assignment| #[trigger] main.agrees(env) implies main.sat(
                    setup,
                    env,
                ) by {
                    assert(base.agrees(env));
                    let g = region as int;
                    lemma_mul_complete(a_val@, b_val@);
                    lemma_shift_complete(a_val@);
                    lemma_shift_complete(b_val@);
                    assert(setup.holds(mul.s_mul, env, g, 0));
                    assert(setup.holds(mul.s_slack, env, g, 0));
                    assert(setup.holds(mul.s_shift, env, g, 0));
                }
            }
            assert(l1.honest(setup));
            assert(l2.honest(setup));
            assert(l3.honest(setup));
            assert(l4.honest(setup));
            assert forall|env: Assignment| #[trigger] layouter.agrees(env) implies layouter.sat(
                setup,
                env,
            ) by {
                assert(l4.agrees(env));
                assert(l3.agrees(env));
                assert(l2.agrees(env));
                assert(l1.agrees(env));
                assert(main.agrees(env));
                assert(l4.sat(setup, env));
            }
        }
    }
    cells
}

pub struct EltwiseMulChip {
    pub config: EltwiseMulConfig,
}

impl EltwiseMulChip {
    pub fn configure(
        meta: &mut ConstraintSystem,
        a: Column,
        b: Column,
        q: Column,
        r: Column,
        slack: Column,
        bits: Column,
    ) -> (config: EltwiseMulConfig)
        requires
            old(meta).advice + 2 <= usize::MAX,
            old(meta).tables + 2 <= usize::MAX,
        ensures
            config.wf(),
            config.a == a && config.b == b && config.q == q && config.r == r && config.slack
                == slack && config.range_a.limbs == bits,
            config.a_shift == (Column { kind: ColumnKind::Advice, index: old(meta).advice }),
            config.b_shift == (Column {
                kind: ColumnKind::Advice,
                index: (old(meta).advice + 1) as usize,
            }),
            config.range_a.table.0 == old(meta).tables,
            config.range_b.table.0 == old(meta).tables + 1,
            final(meta).advice == old(meta).advice + 2,
            final(meta).tables == old(meta).tables + 2,
            final(meta).fixed == old(meta).fixed,
            final(meta).instance == old(meta).instance,
            final(meta).constants@ == old(meta).constants@,
            final(meta).rules@.len() == old(meta).rules@.len() + 13,
            final(meta).extends(*old(meta)),
            forall|setup: Setup|
                setup.cs.extends(*final(meta)) ==> #[trigger] config.rules(setup),
            forall|setup: Setup|
                #![trigger setup.cs.extends(*final(meta))]
                setup.cs.extends(*final(meta)) && config.loaded(setup)
                    ==> setup.rests_between(*old(meta), *final(meta)),
    {
        meta.enable_equality(a);
        meta.enable_equality(b);
        meta.enable_equality(q);
        meta.enable_equality(r);
        meta.enable_equality(slack);
        let s_mul = meta.gate(
            Expression::cell(a).times(Expression::cell(b)).minus(rescale_expression(q)).minus(
                Expression::cell(r),
            ),
        );
        let s_slack = meta.gate(slack_expression(r, slack));
        let a_shift = meta.advice_column();
        let b_shift = meta.advice_column();
        meta.enable_equality(a_shift);
        meta.enable_equality(b_shift);
        let s_shift = meta.gate_pair(shift_expression(a, a_shift), shift_expression(b, b_shift));
        let range_a = LookupRangeCheckChip::configure(meta, a_shift, bits, SHIFTED_BITS);
        let range_b = LookupRangeCheckChip::configure(meta, b_shift, bits, SHIFTED_BITS);
        let range_q = RangeCheckChip::configure(meta, q, bits, SHIFTED_BITS);
        let range_r = RangeCheckChip::configure(meta, r, bits, REMAINDER_BITS);
        let range_r_slack = RangeCheckChip::configure(meta, slack, bits, REMAINDER_BITS);
        let config = EltwiseMulConfig {
            a,
            b,
            q,
            r,
            slack,
            s_mul,
            s_slack,
            range_q,
            range_r,
            range_r_slack,
            a_shift,
            b_shift,
            s_shift,
            range_a,
            range_b,
        };
        proof {
            broadcast use group_extends;

            assert forall|setup: Setup| setup.cs.extends(*meta) implies #[trigger] config.rules(
                setup,
            ) by {}
        }
        config
    }

    pub fn construct(config: EltwiseMulConfig) -> (chip: Self)
        ensures
            chip.config == config,
    {
        EltwiseMulChip { config }
    }

    /// Loads the byte tables of the operand checks. Called once in a synthesis.
    pub fn load_range_table(&self, layouter: &mut Layouter)
        requires
            self.config.wf(),
            (old(layouter).tables())(self.config.range_a.table.0 as int).len() == 0,
            (old(layouter).tables())(self.config.range_b.table.0 as int).len() == 0,
        ensures
            final(layouter).only_loads(*old(layouter)),
            (final(layouter).tables())(self.config.range_a.table.0 as int) == byte_table(),
            (final(layouter).tables())(self.config.range_b.table.0 as int) == byte_table(),
            forall|t: int|
                t != self.config.range_a.table.0 && t != self.config.range_b.table.0
                    ==> #[trigger] (final(layouter).tables())(t) == (old(layouter).tables())(t),
    {
        load_mul_operand_range_table(&self.config, layouter);
    }

    /// Assigns `a * b`, requantized, and returns the cell of the shifted quotient.
    pub fn assign(&self, layouter: &mut Layouter, a: I18, b: I18) -> (q: AssignedCell)
        requires
            self.config.wf(),
            is_i64(rescaled(a@ * b@)),
        ensures
            final(layouter).grows(*old(layouter)),
            q.is(old(layouter).next(), self.config.q, 0, rescaled(a@ * b@) + SIGNED_SHIFT),
            final(layouter).has(q),
            forall|env: Assignment| #[trigger]
                final(layouter).agrees(env) ==> {
                    let r = old(layouter).next();
                    &&& env.at(r, self.config.a, 0) == a@ % modulus()
                    &&& env.at(r, self.config.b, 0) == b@ % modulus()
                },
            forall|setup: Setup, env: Assignment|
                self.config.ok(setup) && #[trigger] final(layouter).sat(setup, env) ==> {
                    let r = old(layouter).next();
                    let (x, y) = (
                        centered(env.at(r, self.config.a, 0)),
                        centered(env.at(r, self.config.b, 0)),
                    );
                    &&& is_i64(x) && is_i64(y) && is_shifted(env.cell(q.cell))
                    &&& unshifted(env.cell(q.cell)) == rescaled(x * y)
                },
            forall|setup: Setup|
                self.config.ok(setup) && self.config.distinct() && old(layouter).honest(setup)
                    ==> #[trigger] final(layouter).honest(setup),
    {
        let cells = assign_mul_row(&self.config, layouter, a, b);
        assert(layouter.has(cells.a) && layouter.has(cells.b));
        cells.q
    }
}

} // verus!
