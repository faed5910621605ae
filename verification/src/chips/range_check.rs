//! Bounds a value to a number of bits by decomposing it into bits.
use vstd::arithmetic::div_mod::*;
use vstd::arithmetic::power::*;
use vstd::prelude::*;

use crate::digits::{digit_sum, lemma_digit_bound, lemma_digit_value, lemma_pow2_128};
use crate::field::{lemma_boolean, modulus, Fr};
use crate::layout::{cell_at, AssignedCell, Cell, Layouter, Mark};
use crate::plonk::{group_extends, lemma_at_range, Assignment, Column, ConstraintSystem, Expression, Selector, Setup};

verus! {

#[derive(Clone, Copy, Debug)]
pub struct RangeCheckConfig {
    pub value: Column,
    pub bits: Column,
    pub s_bit: Selector,
    pub s_sum: Selector,
    pub n_bits: usize,
}

impl RangeCheckConfig {
    /// The rules of the configured selectors: the row's bit is boolean, and the bits of the
    /// last `n_bits` rows write the row's value.
    pub open spec fn ok(self, setup: Setup) -> bool {
        &&& forall|env: Assignment, r: int, o: int| #[trigger]
            setup.holds(self.s_bit, env, r, o) <==> (env.at(r, self.bits, o) * (1 - env.at(
                r,
                self.bits,
                o,
            ))) % modulus() == 0
        &&& forall|env: Assignment, r: int, o: int| #[trigger]
            setup.holds(self.s_sum, env, r, o) <==> (digit_sum(
                env,
                r,
                self.bits,
                o,
                2,
                self.n_bits as int,
                self.n_bits as nat,
            ) - env.at(r, self.value, o)) % modulus() == 0
        &&& setup.cs.linked(self.bits)
    }
}

pub struct RangeCheckChip {
    pub config: RangeCheckConfig,
}

/// The expression of a digit sum whose last digit is in the row itself.
pub(crate) fn digit_sum_expression(column: Column, base: u64, n: usize) -> (e: Expression)
    requires
        n <= i32::MAX,
        base > 1,
    ensures
        forall|env: Assignment, r: int, o: int| #[trigger]
            e.eval(env, r, o) == digit_sum(env, r, column, o, base as int, n as int, n as nat),
{
    let mut sum = Expression::constant(Fr::zero());
    let mut coeff = Fr::one();
    let step = Fr::from_u64(base);
    let mut i: usize = 0;
    proof {
        lemma_pow0(base as int);
    }
    while i < n
        invariant
            i <= n <= i32::MAX,
            base > 1,
            step@ == base,
            coeff@ == pow(base as int, i as nat) % modulus(),
            forall|env: Assignment, r: int, o: int| #[trigger]
                sum.eval(env, r, o) == digit_sum(
                    env,
                    r,
                    column,
                    o,
                    base as int,
                    n as int,
                    i as nat,
                ),
        decreases n - i,
    {
        let rotation: i32 = -((n - 1 - i) as i32);
        sum = sum.plus(Expression::cell_at(column, rotation).times(Expression::constant(coeff)));
        proof {
            let w = pow(base as int, i as nat);
            lemma_pow_adds(base as int, i as nat, 1);
            lemma_pow1(base as int);
            lemma_mul_mod_noop_left(w, base as int, modulus());
        }
        // doubling where the base is two
        coeff = if base == 2 {
            coeff.doubled()
        } else {
            coeff.times(&step)
        };
        i += 1;
        assert(forall|env: Assignment, r: int, o: int|
            #![trigger sum.eval(env, r, o)]
            o + rotation == o - (n - i));
    }
    sum
}

impl RangeCheckConfig {
    /// The layout after the rows of the first `n` bits.
    pub closed spec fn bits_trace(self, t: Seq<Mark>, region: nat, n: int) -> Seq<Mark>
        decreases n,
    {
        if n <= 0 {
            t
        } else {
            self.bits_trace(t, region, n - 1).push(
                Mark::Enable {
                    region: region as usize,
                    selector: self.s_bit,
                    offset: (n - 1) as usize,
                },
            ).push(Mark::Advice { cell: cell_at(region, self.bits, n - 1) })
        }
    }

    /// The layout after a range check.
    pub closed spec fn trace(self, t: Seq<Mark>) -> Seq<Mark> {
        let last = self.n_bits - 1;
        self.bits_trace(t.push(Mark::Region), t.len(), self.n_bits as int).push(
            Mark::Enable {
                region: t.len() as usize,
                selector: self.s_sum,
                offset: last as usize,
            },
        ).push(Mark::Advice { cell: cell_at(t.len(), self.value, last) })
    }

    /// The cell that a range check bounds.
    pub open spec fn bounded_cell(self, t: Seq<Mark>) -> Cell {
        cell_at(t.len(), self.value, self.n_bits - 1)
    }
}

impl RangeCheckChip {
    pub fn configure(
        meta: &mut ConstraintSystem,
        value: Column,
        bits: Column,
        n_bits: usize,
    ) -> (config: RangeCheckConfig)
        requires
            n_bits <= i32::MAX,
        ensures
            config == (RangeCheckConfig {
                value,
                bits,
                s_bit: Selector(old(meta).rules@.len() as usize),
                s_sum: Selector((old(meta).rules@.len() + 1) as usize),
                n_bits,
            }),
            final(meta).rules@.len() == old(meta).rules@.len() + 2,
            final(meta).same_columns(*old(meta)),
            final(meta).extends(*old(meta)),
            forall|setup: Setup|
                setup.cs.extends(*final(meta)) ==> #[trigger] config.ok(setup),
            forall|setup: Setup| #[trigger]
                setup.cs.extends(*final(meta)) ==> setup.rests_between(*old(meta), *final(meta)),
    {
        meta.enable_equality(bits);
        let one = Expression::constant(Fr::one());
        let s_bit = meta.gate(
            Expression::cell(bits).times(one.minus(Expression::cell(bits))),
        );
        let sum = digit_sum_expression(bits, 2, n_bits);
        let s_sum = meta.gate(sum.minus(Expression::cell(value)));
        let config = RangeCheckConfig { value, bits, s_bit, s_sum, n_bits };
        proof {
            broadcast use group_extends;

            assert forall|setup: Setup| setup.cs.extends(*meta) implies #[trigger] config.ok(
                setup,
            ) by {}
        }
        config
    }

    pub fn construct(config: RangeCheckConfig) -> (chip: Self)
        ensures
            chip.config == config,
    {
        RangeCheckChip { config }
    }

    /// Witnesses the bits of `raw_value` in a region of their own and returns the cell that
    /// holds `value`. Any satisfying assignment has a value below `2^n_bits` there; a caller
    /// that means to bound another cell must link it to this one.
    pub fn assign(&self, layouter: &mut Layouter, value: Fr, raw_value: i128) -> (c: AssignedCell)
        requires
            0 < self.config.n_bits <= 128,
        ensures
            final(layouter).grows(*old(layouter)),
            final(layouter).trace() == self.config.trace(old(layouter).trace()),
            c.cell == self.config.bounded_cell(old(layouter).trace()),
            c.is(
                old(layouter).next(),
                self.config.value,
                self.config.n_bits - 1,
                value@,
            ),
            forall|env: Assignment| #[trigger]
                final(layouter).agrees(env) ==> env.cell(c.cell) == value@,
            forall|setup: Setup, env: Assignment|
                self.config.ok(setup) && #[trigger] final(layouter).sat(setup, env) ==> 0
                    <= env.cell(c.cell) < pow(2, self.config.n_bits as nat),
            forall|setup: Setup|
                self.config.ok(setup) && self.config.value != self.config.bits && value@
                    == raw_value && raw_value < pow(2, self.config.n_bits as nat) && old(layouter).honest(setup) ==> #[trigger] final(layouter).honest(setup),
    {
        let cfg = self.config;
        let n: usize = cfg.n_bits;
        let ghost base = *layouter;
        let region: usize = layouter.region();
        let bits: u128 = raw_value as u128;
        let mut rest: u128 = bits;
        let mut i: usize = 0;
        proof {
            lemma_pow0(2);
        }
        while i < n
            invariant
                i <= n <= 128,
                n == cfg.n_bits,
                rest as int == bits as int / pow(2, i as nat),
                region == base.next(),
                region < layouter.next(),
                layouter.known == base.known,
                layouter.tables() == base.tables(),
                layouter.trace() == cfg.bits_trace(
                    base.trace().push(Mark::Region),
                    base.trace().len(),
                    i as int,
                ),
                forall|env: Assignment| #[trigger] layouter.agrees(env) ==> base.agrees(env),
                forall|env: Assignment, k: int|
                    #![trigger layouter.agrees(env), env.at(region as int, cfg.bits, k)]
                    layouter.agrees(env) && 0 <= k < i ==> env.at(region as int, cfg.bits, k) == (
                    bits as int / pow(2, k as nat)) % 2,
                forall|setup: Setup, env: Assignment| #[trigger]
                    layouter.sat(setup, env) ==> base.sat(setup, env),
                forall|setup: Setup, env: Assignment, k: int|
                    #![trigger layouter.sat(setup, env), setup.holds(cfg.s_bit, env, region as int, k)]
                    layouter.sat(setup, env) && 0 <= k < i ==> setup.holds(
                        cfg.s_bit,
                        env,
                        region as int,
                        k,
                    ),
                forall|setup: Setup, env: Assignment|
                    cfg.ok(setup) && base.sat(setup, env) && layouter.agrees(env)
                        ==> #[trigger] layouter.sat(setup, env),
                base.fresh() ==> layouter.fresh(),
                base.fresh() ==> forall|o: int|
                    o >= i ==> !#[trigger] layouter.assigned(region as int, cfg.bits, o),
                base.fresh() && cfg.value != cfg.bits ==> forall|o: int| !#[trigger]
                    layouter.assigned(region as int, cfg.value, o),
                base.fresh() && base.consistent() ==> layouter.consistent(),
            decreases n - i,
        {
            let ghost before = *layouter;
            layouter.enable(region, cfg.s_bit, i);
            let bit: u64 = (rest % 2) as u64;
            layouter.assign_advice(region, cfg.bits, i, Fr::from_u64(bit));
            proof {
                let w = pow(2, i as nat);
                lemma_pow_positive(2, i as nat);
                lemma_pow_adds(2, i as nat, 1);
                lemma_pow1(2);
                lemma_div_denominator(bits as int, w, 2);
                assert forall|setup: Setup, env: Assignment|
                    cfg.ok(setup) && base.sat(setup, env) && layouter.agrees(
                        env,
                    ) implies #[trigger] layouter.sat(setup, env) by {
                    assert(before.agrees(env));
                    assert(before.sat(setup, env));
                    let b = env.at(region as int, cfg.bits, i as int);
                    assert(b == bit);
                    assert(b * (1 - b) == 0) by (nonlinear_arith)
                        requires
                            b == 0 || b == 1,
                    ;
                    assert(setup.holds(cfg.s_bit, env, region as int, i as int));
                }
            }
            rest = rest / 2;
            i += 1;
        }
        let ghost filled = *layouter;
        layouter.enable(region, cfg.s_sum, n - 1);
        let c = layouter.assign_advice(region, cfg.value, n - 1, value);
        proof {
            let r = region as int;
            let w = pow(2, n as nat);
            lemma_pow2_128(n as nat);
            assert forall|setup: Setup, env: Assignment|
                cfg.ok(setup) && #[trigger] layouter.sat(setup, env) implies 0 <= env.cell(c.cell)
                < w by {
                assert(filled.sat(setup, env));
                assert forall|k: int| 0 <= k < n implies 0 <= #[trigger] env.at(
                    r,
                    cfg.bits,
                    (n - 1) - (n - 1 - k),
                ) < 2 by {
                    assert(setup.holds(cfg.s_bit, env, r, k));
                    lemma_at_range(env, r, cfg.bits, k);
                    lemma_boolean(env.at(r, cfg.bits, k));
                }
                lemma_digit_bound(env, r, cfg.bits, n - 1, 2, n as int, n as nat);
                assert(setup.holds(cfg.s_sum, env, r, n - 1));
                lemma_at_range(env, r, cfg.value, n - 1);
            }
            assert forall|setup: Setup|
                cfg.ok(setup) && cfg.value != cfg.bits && value@ == raw_value && raw_value < w
                    && base.honest(setup) implies #[trigger] layouter.honest(setup) by {
                crate::field::lemma_fr_range(value);
                assert forall|env: Assignment| #[trigger] layouter.agrees(
                    env,
                ) implies layouter.sat(setup, env) by {
                    assert(filled.agrees(env));
                    assert(base.agrees(env));
                    assert(filled.sat(setup, env));
                    assert forall|k: int| 0 <= k < n implies #[trigger] env.at(
                        r,
                        cfg.bits,
                        (n - 1) - (n - 1 - k),
                    ) == (raw_value as int / pow(2, k as nat)) % 2 by {
                        assert(bits == raw_value);
                        assert(env.at(r, cfg.bits, k) == (bits as int / pow(2, k as nat)) % 2);
                    }
                    lemma_digit_value(
                        env,
                        r,
                        cfg.bits,
                        n - 1,
                        2,
                        n as int,
                        n as nat,
                        raw_value as int,
                    );
                    lemma_small_mod(raw_value as nat, w as nat);
                    assert(setup.holds(cfg.s_sum, env, r, n - 1));
                }
            }
        }
        c
    }
}

} // verus!
