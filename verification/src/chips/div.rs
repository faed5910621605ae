//! Fixed-point division where both operands are witnessed.
//!
//! For a numerator `n` and a divisor `d > 0` the quotient is `n * SCALE_18 / d` rounded down,
//! so that `n * SCALE_18 == q * d + r` with `0 <= r < d`. The bound on the remainder is itself
//! witnessed, and the chip proves that it is positive.
use vstd::prelude::*;
use vstd::string::*;

use crate::chips::eltwise::SHIFTED_BITS;
use crate::chips::range_check::{RangeCheckChip, RangeCheckConfig};
use crate::digits::lemma_pow_64;
use crate::field::{centered, lemma_centered_congruent, modulus, Fr};
use crate::field_convert::{
    i128_to_fr, i64_to_fr, is_shifted, shifted_i64_witness, unshifted, SIGNED_SHIFT,
};
use crate::fixed_point::{divide, is_i64, lemma_i18_range, FixedPointError, I18, SCALE_18};
use crate::layout::{AssignedCell, Layouter};
use crate::plonk::{
    group_extends, lemma_at_range, Assignment, Column, ConstraintSystem, Expression, Selector, Setup,
};
use crate::text::{signed_decimal, signed_text};

verus! {

/// The remainder is bounded by the divisor, which may take 63 bits.
pub const DIV_REMAINDER_BITS: usize = 64;

/// A divisor less one that fits 63 bits shows that the divisor is positive.
pub const DIVISOR_MINUS_ONE_BITS: usize = 63;

#[derive(Debug, Clone, PartialEq, Eq)]
pub enum DivError {
    /// The divisor is not positive.
    NonPositiveDivisor { divisor: i64 },
    /// The quotient is no 64-bit integer.
    QuotientOverflow(FixedPointError),
    /// Synthesis failed.
    Circuit(String),
}

impl DivError {
    /// The text of the error.
    pub open spec fn text(self) -> Seq<char> {
        match self {
            DivError::NonPositiveDivisor { divisor } => "divisor "@ + signed_decimal(divisor as int)
                + " is not strictly positive"@,
            DivError::QuotientOverflow(e) => "division overflow: "@ + ("fixed point error: "@
                + e.0@),
            DivError::Circuit(e) => "div circuit error: "@ + e@,
        }
    }

    pub fn message(&self) -> (r: String)
        ensures
            r@ == self.text(),
    {
        match self {
            DivError::NonPositiveDivisor { divisor } => {
                let mut r = String::from_str("divisor ");
                r.append(signed_text(*divisor as i128).as_str());
                r.append(" is not strictly positive");
                r
            },
            DivError::QuotientOverflow(e) => {
                let mut r = String::from_str("division overflow: ");
                r.append(e.message().as_str());
                r
            },
            DivError::Circuit(e) => {
                let mut r = String::from_str("div circuit error: ");
                r.append(e.as_str());
                r
            },
        }
    }
}

/// The fixed-point quotient, rounded down.
pub open spec fn quotient(n: int, d: int) -> int {
    (n * SCALE_18) / d
}

pub open spec fn quotient_remainder(n: int, d: int) -> int {
    (n * SCALE_18) % d
}

pub open spec fn quotient_overflow_text(n: int, d: int) -> Seq<char> {
    "raw values "@ + signed_decimal(n) + " / "@ + signed_decimal(d)
        + " requantizes to a quotient that overflows I18 range"@
}

/// The fixed-point quotient and the remainder of a division. A divisor that is not positive
/// and a quotient that is no 64-bit integer are errors.
pub fn div_quotient_remainder(numerator: I18, divisor: I18) -> (r: Result<(I18, i128), DivError>)
    ensures
        match r {
            Ok((q, m)) => {
                &&& divisor@ > 0
                &&& is_i64(quotient(numerator@, divisor@))
                &&& q@ == quotient(numerator@, divisor@)
                &&& m == quotient_remainder(numerator@, divisor@)
            },
            Err(DivError::NonPositiveDivisor { divisor: d }) => divisor@ <= 0 && d == divisor@,
            Err(DivError::QuotientOverflow(e)) => {
                &&& divisor@ > 0
                &&& !is_i64(quotient(numerator@, divisor@))
                &&& e.0@ == quotient_overflow_text(numerator@, divisor@)
            },
            Err(DivError::Circuit(e)) => false,
        },
{
    let d_raw: i64 = divisor.raw();
    if d_raw <= 0 {
        return Err(DivError::NonPositiveDivisor { divisor: d_raw });
    }
    let n: i128 = (numerator.raw() as i128) * SCALE_18;
    let (q, r): (i128, i128) = divide(n, d_raw as i128);
    if q < i64::MIN as i128 || q > i64::MAX as i128 {
        let mut text = String::from_str("raw values ");
        text.append(signed_text(numerator.raw() as i128).as_str());
        text.append(" / ");
        text.append(signed_text(d_raw as i128).as_str());
        text.append(" requantizes to a quotient that overflows I18 range");
        return Err(DivError::QuotientOverflow(FixedPointError(text)));
    }
    Ok((I18::from_raw(q as i64), r))
}

#[derive(Clone, Copy, Debug)]
pub struct DivConfig {
    pub numerator: Column,
    pub divisor: Column,
    pub q_shift: Column,
    pub r: Column,
    pub slack: Column,
    pub dm1: Column,
    pub s_div: Selector,
    pub s_slack: Selector,
    pub s_dm1: Selector,
    pub range_q: RangeCheckConfig,
    pub range_r: RangeCheckConfig,
    pub range_slack: RangeCheckConfig,
    pub range_dm1: RangeCheckConfig,
}

/// Vanishes where the scaled numerator is the shifted quotient times the divisor, plus the
/// remainder.
pub open spec fn div_gate(n: int, d: int, q: int, r: int) -> int {
    n * SCALE_18 - (q - SIGNED_SHIFT) * d - r
}

impl DivConfig {
    pub open spec fn wf(self) -> bool {
        &&& self.range_q.value == self.q_shift && self.range_q.n_bits == 64
        &&& self.range_r.value == self.r && self.range_r.n_bits == 64
        &&& self.range_slack.value == self.slack && self.range_slack.n_bits == 64
        &&& self.range_dm1.value == self.dm1 && self.range_dm1.n_bits == 63
        &&& self.range_r.bits == self.range_q.bits
        &&& self.range_slack.bits == self.range_q.bits
        &&& self.range_dm1.bits == self.range_q.bits
    }

    pub open spec fn distinct(self) -> bool {
        let bits = self.range_q.bits;
        &&& self.numerator != self.divisor && self.numerator != self.q_shift && self.numerator
            != self.r && self.numerator != self.slack && self.numerator != self.dm1
        &&& self.divisor != self.q_shift && self.divisor != self.r && self.divisor != self.slack
            && self.divisor != self.dm1
        &&& self.q_shift != self.r && self.q_shift != self.slack && self.q_shift != self.dm1
            && self.q_shift != bits
        &&& self.r != self.slack && self.r != self.dm1 && self.r != bits
        &&& self.slack != self.dm1 && self.slack != bits && self.dm1 != bits
    }

    pub open spec fn ok(self, setup: Setup) -> bool {
        &&& forall|env: Assignment, r: int, o: int| #[trigger]
            setup.holds(self.s_div, env, r, o) <==> div_gate(
                env.at(r, self.numerator, o),
                env.at(r, self.divisor, o),
                env.at(r, self.q_shift, o),
                env.at(r, self.r, o),
            ) % modulus() == 0
        &&& forall|env: Assignment, r: int, o: int| #[trigger]
            setup.holds(self.s_slack, env, r, o) <==> (env.at(r, self.slack, o) + env.at(
                r,
                self.r,
                o,
            ) - env.at(r, self.divisor, o) + 1) % modulus() == 0
        &&& forall|env: Assignment, r: int, o: int| #[trigger]
            setup.holds(self.s_dm1, env, r, o) <==> (env.at(r, self.dm1, o) - env.at(
                r,
                self.divisor,
                o,
            ) + 1) % modulus() == 0
        &&& self.range_q.ok(setup)
        &&& self.range_r.ok(setup)
        &&& self.range_slack.ok(setup)
        &&& self.range_dm1.ok(setup)
        &&& setup.cs.linked(self.numerator)
        &&& setup.cs.linked(self.divisor)
        &&& setup.cs.linked(self.q_shift)
        &&& setup.cs.linked(self.r)
        &&& setup.cs.linked(self.slack)
        &&& setup.cs.linked(self.dm1)
    }
}

/// The divisor is positive and below `2^63 + 1`, the quotient is a shifted 64-bit integer, and
/// where the numerator is a 64-bit integer it is the fixed-point quotient.
pub open spec fn div_sound(n: int, d: int, q: int) -> bool {
    &&& 0 < d <= 0x8000_0000_0000_0000int
    &&& is_shifted(q)
    &&& is_i64(centered(n)) ==> unshifted(q) == quotient(centered(n), d)
}

proof fn lemma_div_sound(n: int, d: int, q: int, r: int, slack: int, dm1: int)
    requires
        0 <= n < modulus(),
        0 <= d < modulus(),
        is_shifted(q),
        is_shifted(r),
        is_shifted(slack),
        0 <= dm1 < 0x8000_0000_0000_0000int,
        div_gate(n, d, q, r) % modulus() == 0,
        (slack + r - d + 1) % modulus() == 0,
        (dm1 - d + 1) % modulus() == 0,
    ensures
        div_sound(n, d, q),
{
    assert(d == dm1 + 1);
    assert(r + slack == d - 1);
    if is_i64(centered(n)) {
        let x = centered(n);
        let y = unshifted(q);
        lemma_centered_congruent(n);
        let w = y * d;
        let m = 0x8000_0000_0000_0000int;
        assert(-(m * m) <= w <= m * m) by (nonlinear_arith)
            requires
                w == y * d,
                -m <= y <= m,
                0 <= d <= m,
        ;
        assert(m * m == 0x4000_0000_0000_0000_0000_0000_0000_0000int);
        assert(x * SCALE_18 == w + r);
        vstd::arithmetic::div_mod::lemma_fundamental_div_mod_converse(x * SCALE_18, d, y, r);
    }
}

proof fn lemma_div_complete(n: int, d: int)
    requires
        is_i64(n),
        is_i64(d),
        d > 0,
    ensures
        div_gate(n % modulus(), d, quotient(n, d) + SIGNED_SHIFT, quotient_remainder(n, d))
            % modulus() == 0,
        0 <= quotient_remainder(n, d) < d,
{
    vstd::arithmetic::div_mod::lemma_fundamental_div_mod(n * SCALE_18, d);
    vstd::arithmetic::div_mod::lemma_mod_bound(n * SCALE_18, d);
    let q = quotient(n, d);
    vstd::arithmetic::mul::lemma_mul_is_commutative(q, d);
    let w = q * d;
    assert((q + SIGNED_SHIFT - SIGNED_SHIFT) * d == w);
}

pub struct DivChip {
    pub config: DivConfig,
}

impl DivChip {
    pub fn configure(
        meta: &mut ConstraintSystem,
        numerator: Column,
        divisor: Column,
        q_shift: Column,
        r: Column,
        slack: Column,
        dm1: Column,
        bits: Column,
    ) -> (config: DivConfig)
        ensures
            config.wf(),
            config.numerator == numerator && config.divisor == divisor && config.q_shift == q_shift
                && config.r == r && config.slack == slack && config.dm1 == dm1
                && config.range_q.bits == bits,
            final(meta).same_columns(*old(meta)),
            final(meta).rules@.len() == old(meta).rules@.len() + 11,
            final(meta).extends(*old(meta)),
            forall|setup: Setup|
                setup.cs.extends(*final(meta)) ==> #[trigger] config.ok(setup),
            forall|setup: Setup| #[trigger]
                setup.cs.extends(*final(meta)) ==> setup.rests_between(*old(meta), *final(meta)),
    {
        meta.enable_equality(numerator);
        meta.enable_equality(divisor);
        meta.enable_equality(q_shift);
        meta.enable_equality(r);
        meta.enable_equality(slack);
        meta.enable_equality(dm1);
        let scale = Expression::constant(i128_to_fr(SCALE_18));
        let shift = Expression::constant(i128_to_fr(SIGNED_SHIFT));
        let s_div = meta.gate(
            Expression::cell(numerator).times(scale).minus(
                Expression::cell(q_shift).minus(shift).times(Expression::cell(divisor)),
            ).minus(Expression::cell(r)),
        );
        let s_slack = meta.gate(
            Expression::cell(slack).plus(Expression::cell(r)).minus(Expression::cell(divisor)).plus(
                Expression::constant(Fr::one()),
            ),
        );
        let s_dm1 = meta.gate(
            Expression::cell(dm1).minus(Expression::cell(divisor)).plus(
                Expression::constant(Fr::one()),
            ),
        );
        let range_q = RangeCheckChip::configure(meta, q_shift, bits, SHIFTED_BITS);
        let range_r = RangeCheckChip::configure(meta, r, bits, DIV_REMAINDER_BITS);
        let range_slack = RangeCheckChip::configure(meta, slack, bits, DIV_REMAINDER_BITS);
        let range_dm1 = RangeCheckChip::configure(meta, dm1, bits, DIVISOR_MINUS_ONE_BITS);
        let config = DivConfig {
            numerator,
            divisor,
            q_shift,
            r,
            slack,
            dm1,
            s_div,
            s_slack,
            s_dm1,
            range_q,
            range_r,
            range_slack,
            range_dm1,
        };
        proof {
            broadcast use group_extends;

            assert forall|setup: Setup| setup.cs.extends(*meta) implies #[trigger] config.ok(
                setup,
            ) by {}
        }
        config
    }

    pub fn construct(config: DivConfig) -> (chip: Self)
        ensures
            chip.config == config,
    {
        DivChip { config }
    }

    /// Divides in a region, range-checks quotient, remainder, slack and the divisor less one,
    /// and links every range check to the region. Returns the quotient with the cells of the
    /// numerator and the divisor. Nothing is laid out where the division is an error.
    pub fn assign(&self, layouter: &mut Layouter, numerator: I18, divisor: I18) -> (res: Result<
        (I18, AssignedCell, AssignedCell),
        DivError,
    >)
        requires
            self.config.wf(),
        ensures
            res is Ok <==> divisor@ > 0 && is_i64(quotient(numerator@, divisor@)),
            res matches Err(e) ==> *final(layouter) == *old(layouter) && match e {
                DivError::NonPositiveDivisor { divisor: d } => divisor@ <= 0 && d == divisor@,
                DivError::QuotientOverflow(t) => divisor@ > 0 && t.0@ == quotient_overflow_text(
                    numerator@,
                    divisor@,
                ),
                DivError::Circuit(t) => false,
            },
            res matches Ok((q, n_cell, d_cell)) ==> {
                let r = old(layouter).next();
                &&& final(layouter).grows(*old(layouter))
                &&& q@ == quotient(numerator@, divisor@)
                &&& n_cell.is(r, self.config.numerator, 0, numerator@ % modulus())
                &&& d_cell.is(r, self.config.divisor, 0, divisor@)
                &&& final(layouter).has(n_cell)
                &&& final(layouter).has(d_cell)
                &&& forall|env: Assignment| #[trigger]
                    final(layouter).agrees(env) ==> env.at(r, self.config.q_shift, 0) == q@
                        + SIGNED_SHIFT
                &&& forall|setup: Setup, env: Assignment|
                    self.config.ok(setup) && #[trigger] final(layouter).sat(setup, env)
                        ==> div_sound(
                        env.cell(n_cell.cell),
                        env.cell(d_cell.cell),
                        env.at(r, self.config.q_shift, 0),
                    )
                &&& forall|setup: Setup|
                    self.config.ok(setup) && self.config.distinct() && old(layouter).honest(setup)
                        ==> #[trigger] final(layouter).honest(setup)
            },
    {
        broadcast use {lemma_i18_range, lemma_at_range};

        let cfg = self.config;
        let ghost base = *layouter;
        let (quotient, r): (I18, i128) = match div_quotient_remainder(numerator, divisor) {
            Ok(v) => v,
            Err(e) => {
                return Err(e);
            },
        };
        let d: i128 = divisor.raw() as i128;
        proof {
            lemma_div_complete(numerator@, divisor@);
        }
        let slack: i128 = d - 1 - r;
        let dm1: i128 = d - 1;
        let (q_fr, q_raw) = shifted_i64_witness(quotient.raw());
        let r_fr = i128_to_fr(r);
        let slack_fr = i128_to_fr(slack);
        let dm1_fr = i128_to_fr(dm1);

        let region: usize = layouter.region();
        layouter.enable(region, cfg.s_div, 0);
        layouter.enable(region, cfg.s_slack, 0);
        layouter.enable(region, cfg.s_dm1, 0);
        let n_cell = layouter.assign_advice(region, cfg.numerator, 0, i64_to_fr(numerator.raw()));
        let d_cell = layouter.assign_advice(region, cfg.divisor, 0, i64_to_fr(divisor.raw()));
        let q_cell = layouter.assign_advice(region, cfg.q_shift, 0, q_fr);
        let r_cell = layouter.assign_advice(region, cfg.r, 0, r_fr);
        let slack_cell = layouter.assign_advice(region, cfg.slack, 0, slack_fr);
        let dm1_cell = layouter.assign_advice(region, cfg.dm1, 0, dm1_fr);
        let ghost main = *layouter;

        let rq = RangeCheckChip::construct(cfg.range_q).assign(layouter, q_fr, q_raw);
        let ghost l1 = *layouter;
        let rr = RangeCheckChip::construct(cfg.range_r).assign(layouter, r_fr, r);
        let ghost l2 = *layouter;
        let rs = RangeCheckChip::construct(cfg.range_slack).assign(layouter, slack_fr, slack);
        let ghost l3 = *layouter;
        let rd = RangeCheckChip::construct(cfg.range_dm1).assign(layouter, dm1_fr, dm1);
        let ghost l4 = *layouter;

        layouter.region();
        layouter.constrain_equal(q_cell.cell, rq.cell);
        layouter.constrain_equal(r_cell.cell, rr.cell);
        layouter.constrain_equal(slack_cell.cell, rs.cell);
        layouter.constrain_equal(dm1_cell.cell, rd.cell);
        proof {
            lemma_pow_64();
            let g = region as int;
            assert forall|setup: Setup, env: Assignment|
                cfg.ok(setup) && #[trigger] layouter.sat(setup, env) implies div_sound(
                env.cell(n_cell.cell),
                env.cell(d_cell.cell),
                env.at(g, cfg.q_shift, 0),
            ) by {
                assert(l4.sat(setup, env) && l3.sat(setup, env) && l2.sat(setup, env));
                assert(l1.sat(setup, env) && main.sat(setup, env));
                assert(setup.holds(cfg.s_div, env, g, 0));
                assert(setup.holds(cfg.s_slack, env, g, 0));
                assert(setup.holds(cfg.s_dm1, env, g, 0));
                lemma_div_sound(
                    env.at(g, cfg.numerator, 0),
                    env.at(g, cfg.divisor, 0),
                    env.at(g, cfg.q_shift, 0),
                    env.at(g, cfg.r, 0),
                    env.at(g, cfg.slack, 0),
                    env.at(g, cfg.dm1, 0),
                );
            }
            assert forall|setup: Setup|
                cfg.ok(setup) && cfg.distinct() && base.honest(
                    setup,
                ) implies #[trigger] layouter.honest(setup) by {
                assert(main.honest(setup)) by {
                    assert forall|env: Assignment| #[trigger] main.agrees(env) implies main.sat(
                        setup,
                        env,
                    ) by {
                        assert(base.agrees(env));
                        assert(setup.holds(cfg.s_div, env, g, 0));
                        assert(setup.holds(cfg.s_slack, env, g, 0));
                        assert(setup.holds(cfg.s_dm1, env, g, 0));
                    }
                }
                assert(l1.honest(setup));
                assert(l2.honest(setup));
                assert(l3.honest(setup));
                assert(l4.honest(setup));
                assert forall|env: Assignment| #[trigger] layouter.agrees(
                    env,
                ) implies layouter.sat(setup, env) by {
                    assert(l4.agrees(env) && l3.agrees(env) && l2.agrees(env) && l1.agrees(env));
                    assert(main.agrees(env));
                    assert(l4.sat(setup, env));
                }
            }
        }
        Ok((quotient, n_cell, d_cell))
    }
}

} // verus!
