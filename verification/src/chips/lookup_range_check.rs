//! Bounds a value to a number of bits by splitting it into bytes and looking each one up.
//!
//! The guarantee is that of [`crate::chips::range_check::RangeCheckChip`], at one row per byte
//! instead of one per bit, which is what makes bounds on every operand affordable.
use vstd::arithmetic::div_mod::*;
use vstd::arithmetic::power::*;
use vstd::prelude::*;

use crate::chips::range_check::digit_sum_expression;
use crate::digits::{digit_sum, lemma_digit_bound, lemma_digit_value, lemma_pow2_128, lemma_pow_256};
use crate::field::{lemma_fr_range, modulus, Fr};
use crate::layout::{cell_at, AssignedCell, Cell, Layouter, Mark};
use crate::plonk::{
    group_extends, lemma_at_range, Assignment, Column, ConstraintSystem, Expression, Selector, Setup, TableColumn,
};

verus! {

/// Width of one looked-up limb.
pub const LIMB_BITS: usize = 8;

const LIMB_VALUES: u64 = 256;

#[derive(Clone, Copy, Debug)]
pub struct LookupRangeCheckConfig {
    pub value: Column,
    pub limbs: Column,
    pub s_limb: Selector,
    pub s_sum: Selector,
    pub table: TableColumn,
    pub n_bits: usize,
}

/// The table of all bytes.
pub open spec fn byte_table() -> Seq<int> {
    Seq::new(256, |i: int| i)
}

impl LookupRangeCheckConfig {
    pub open spec fn n_limbs(self) -> int {
        self.n_bits as int / 8
    }

    /// The rules of the configured selectors: the row's limb stands in the table, and the
    /// limbs of the last rows write the row's value.
    pub open spec fn rules(self, setup: Setup) -> bool {
        &&& forall|env: Assignment, r: int, o: int| #[trigger]
            setup.holds(self.s_limb, env, r, o) <==> (setup.tables)(self.table.0 as int).contains(
                env.at(r, self.limbs, o) % modulus(),
            )
        &&& forall|env: Assignment, r: int, o: int| #[trigger]
            setup.holds(self.s_sum, env, r, o) <==> (digit_sum(
                env,
                r,
                self.limbs,
                o,
                256,
                self.n_limbs(),
                self.n_limbs() as nat,
            ) - env.at(r, self.value, o)) % modulus() == 0
        &&& setup.rests(self.s_limb) <==> (setup.tables)(self.table.0 as int).contains(0)
        &&& setup.cs.linked(self.limbs)
    }

    /// The table holds the bytes.
    pub open spec fn loaded(self, setup: Setup) -> bool {
        (setup.tables)(self.table.0 as int) == byte_table()
    }

    pub open spec fn ok(self, setup: Setup) -> bool {
        self.rules(setup) && self.loaded(setup)
    }

    /// Zero is a byte, so rows without a limb satisfy the lookup.
    pub proof fn lemma_rests(self, setup: Setup)
        requires
            self.ok(setup),
        ensures
            setup.rests(self.s_limb),
    {
        assert(byte_table()[0] == 0);
    }
}

pub struct LookupRangeCheckChip {
    pub config: LookupRangeCheckConfig,
}

impl LookupRangeCheckConfig {
    /// The layout after the rows of the first `n` limbs.
    pub closed spec fn limbs_trace(self, t: Seq<Mark>, region: nat, n: int) -> Seq<Mark>
        decreases n,
    {
        if n <= 0 {
            t
        } else {
            self.limbs_trace(t, region, n - 1).push(
                Mark::Enable {
                    region: region as usize,
                    selector: self.s_limb,
                    offset: (n - 1) as usize,
                },
            ).push(Mark::Advice { cell: cell_at(region, self.limbs, n - 1) })
        }
    }

    /// The layout after a range check.
    pub closed spec fn trace(self, t: Seq<Mark>) -> Seq<Mark> {
        let last = self.n_limbs() - 1;
        self.limbs_trace(t.push(Mark::Region), t.len(), self.n_limbs()).push(
            Mark::Enable {
                region: t.len() as usize,
                selector: self.s_sum,
                offset: last as usize,
            },
        ).push(Mark::Advice { cell: cell_at(t.len(), self.value, last) })
    }

    /// The cell that a range check bounds.
    pub open spec fn bounded_cell(self, t: Seq<Mark>) -> Cell {
        cell_at(t.len(), self.value, self.n_limbs() - 1)
    }

    /// The layout after the first `n` rows of the byte table.
    pub closed spec fn bytes_trace(self, t: Seq<Mark>, n: int) -> Seq<Mark>
        decreases n,
    {
        if n <= 0 {
            t.push(Mark::Table)
        } else {
            self.bytes_trace(t, n - 1).push(
                Mark::TableRow { table: self.table, row: (n - 1) as usize, value: n - 1 },
            )
        }
    }

    /// The layout after the byte table.
    pub closed spec fn table_trace(self, t: Seq<Mark>) -> Seq<Mark> {
        self.bytes_trace(t, LIMB_VALUES as int)
    }
}

impl LookupRangeCheckChip {
    pub fn configure(
        meta: &mut ConstraintSystem,
        value: Column,
        limbs: Column,
        n_bits: usize,
    ) -> (config: LookupRangeCheckConfig)
        requires
            0 < n_bits <= i32::MAX,
            n_bits % LIMB_BITS == 0,
            old(meta).tables < usize::MAX,
        ensures
            config == (LookupRangeCheckConfig {
                value,
                limbs,
                s_limb: Selector(old(meta).rules@.len() as usize),
                s_sum: Selector((old(meta).rules@.len() + 1) as usize),
                table: TableColumn(old(meta).tables),
                n_bits,
            }),
            final(meta).rules@.len() == old(meta).rules@.len() + 2,
            final(meta).advice == old(meta).advice,
            final(meta).fixed == old(meta).fixed,
            final(meta).instance == old(meta).instance,
            final(meta).tables == old(meta).tables + 1,
            final(meta).constants@ == old(meta).constants@,
            final(meta).extends(*old(meta)),
            forall|setup: Setup|
                setup.cs.extends(*final(meta)) ==> #[trigger] config.rules(setup),
            forall|setup: Setup|
                #![trigger setup.cs.extends(*final(meta))]
                setup.cs.extends(*final(meta)) && config.loaded(setup)
                    ==> setup.rests_between(*old(meta), *final(meta)),
    {
        meta.enable_equality(limbs);
        let table = meta.lookup_table_column();
        let s_limb = meta.lookup(Expression::cell(limbs), Fr::zero(), table);
        let n_limbs: usize = n_bits / LIMB_BITS;
        let sum = digit_sum_expression(limbs, LIMB_VALUES, n_limbs);
        let s_sum = meta.gate(sum.minus(Expression::cell(value)));
        let config = LookupRangeCheckConfig { value, limbs, s_limb, s_sum, table, n_bits };
        proof {
            broadcast use group_extends;

            assert forall|setup: Setup| setup.cs.extends(*meta) implies #[trigger] config.rules(
                setup,
            ) by {}
            assert forall|setup: Setup|
                #![trigger setup.cs.extends(*meta)]
                setup.cs.extends(*meta) && config.loaded(setup) implies setup.rests_between(
                *old(meta),
                *meta,
            ) by {
                assert(config.rules(setup));
                config.lemma_rests(setup);
            }
        }
        config
    }

    pub fn construct(config: LookupRangeCheckConfig) -> (chip: Self)
        ensures
            chip.config == config,
    {
        LookupRangeCheckChip { config }
    }

    /// Loads the byte table. Called once for each configured chip in a synthesis.
    pub fn load_table(&self, layouter: &mut Layouter)
        requires
            (old(layouter).tables())(self.config.table.0 as int).len() == 0,
        ensures
            final(layouter).only_loads(*old(layouter)),
            final(layouter).trace() == self.config.table_trace(old(layouter).trace()),
            (final(layouter).tables())(self.config.table.0 as int) == byte_table(),
            forall|t: int|
                t != self.config.table.0 ==> #[trigger] (final(layouter).tables())(t) == (old(layouter).tables())(t),
    {
        let table = self.config.table;
        layouter.table();
        let mut i: u64 = 0;
        while i < LIMB_VALUES
            invariant
                i <= LIMB_VALUES,
                layouter.only_loads(*old(layouter)),
                layouter.trace() == self.config.bytes_trace(old(layouter).trace(), i as int),
                table == self.config.table,
                (layouter.tables())(table.0 as int) == Seq::new(i as nat, |k: int| k),
                forall|t: int|
                    t != table.0 ==> #[trigger] (layouter.tables())(t) == (old(layouter).tables())(
                        t,
                    ),
            decreases LIMB_VALUES - i,
        {
            layouter.assign_table_row(table, i as usize, Fr::from_u64(i));
            proof {
                assert(Seq::new(i as nat, |k: int| k).push(i as int) =~= Seq::new(
                    (i + 1) as nat,
                    |k: int| k,
                ));
            }
            i += 1;
        }
    }

    /// Loads the byte table unless it is loaded already.
    pub fn ensure_table(&self, layouter: &mut Layouter)
        ensures
            final(layouter).only_loads(*old(layouter)),
            forall|t: int| #[trigger]
                (final(layouter).tables())(t) == if t == self.config.table.0 && (old(
                    layouter,
                ).tables())(t).len() == 0 {
                    byte_table()
                } else {
                    (old(layouter).tables())(t)
                },
    {
        if !layouter.is_loaded(self.config.table) {
            self.load_table(layouter);
        }
    }

    /// Witnesses the limbs of `raw_value` in a region of their own and returns the cell that
    /// holds `value`. Any satisfying assignment has a value below `2^n_bits` there; a caller
    /// that means to bound another cell must link it to this one.
    pub fn assign(&self, layouter: &mut Layouter, value: Fr, raw_value: i128) -> (c: AssignedCell)
        requires
            0 < self.config.n_bits <= 128,
            self.config.n_bits % LIMB_BITS == 0,
        ensures
            final(layouter).grows(*old(layouter)),
            final(layouter).trace() == self.config.trace(old(layouter).trace()),
            c.cell == self.config.bounded_cell(old(layouter).trace()),
            c.is(old(layouter).next(), self.config.value, self.config.n_limbs() - 1, value@),
            forall|env: Assignment| #[trigger]
                final(layouter).agrees(env) ==> env.cell(c.cell) == value@,
            forall|setup: Setup, env: Assignment|
                self.config.ok(setup) && #[trigger] final(layouter).sat(setup, env) ==> 0
                    <= env.cell(c.cell) < pow(2, self.config.n_bits as nat),
            forall|setup: Setup|
                self.config.ok(setup) && self.config.value != self.config.limbs && value@
                    == raw_value && raw_value < pow(2, self.config.n_bits as nat) && old(layouter).honest(setup) ==> #[trigger] final(layouter).honest(setup),
    {
        let cfg = self.config;
        let n: usize = cfg.n_bits / LIMB_BITS;
        let ghost base = *layouter;
        let region: usize = layouter.region();
        let bits: u128 = raw_value as u128;
        let mut rest: u128 = bits;
        let mut i: usize = 0;
        proof {
            lemma_pow0(256);
        }
        while i < n
            invariant
                i <= n <= 16,
                n == cfg.n_limbs(),
                rest as int == bits as int / pow(256, i as nat),
                region == base.next(),
                region < layouter.next(),
                layouter.known == base.known,
                layouter.tables() == base.tables(),
                layouter.trace() == cfg.limbs_trace(
                    base.trace().push(Mark::Region),
                    base.trace().len(),
                    i as int,
                ),
                forall|env: Assignment| #[trigger] layouter.agrees(env) ==> base.agrees(env),
                forall|env: Assignment, k: int|
                    #![trigger layouter.agrees(env), env.at(region as int, cfg.limbs, k)]
                    layouter.agrees(env) && 0 <= k < i ==> env.at(region as int, cfg.limbs, k) == (
                    bits as int / pow(256, k as nat)) % 256,
                forall|setup: Setup, env: Assignment| #[trigger]
                    layouter.sat(setup, env) ==> base.sat(setup, env),
                forall|setup: Setup, env: Assignment, k: int|
                    #![trigger layouter.sat(setup, env), setup.holds(cfg.s_limb, env, region as int, k)]
                    layouter.sat(setup, env) && 0 <= k < i ==> setup.holds(
                        cfg.s_limb,
                        env,
                        region as int,
                        k,
                    ),
                forall|setup: Setup, env: Assignment|
                    cfg.ok(setup) && base.sat(setup, env) && layouter.agrees(env)
                        ==> #[trigger] layouter.sat(setup, env),
                base.fresh() ==> layouter.fresh(),
                base.fresh() ==> forall|o: int|
                    o >= i ==> !#[trigger] layouter.assigned(region as int, cfg.limbs, o),
                base.fresh() && cfg.value != cfg.limbs ==> forall|o: int| !#[trigger]
                    layouter.assigned(region as int, cfg.value, o),
                base.fresh() && base.consistent() ==> layouter.consistent(),
            decreases n - i,
        {
            let ghost before = *layouter;
            layouter.enable(region, cfg.s_limb, i);
            let limb: u64 = (rest % 256) as u64;
            layouter.assign_advice(region, cfg.limbs, i, Fr::from_u64(limb));
            proof {
                let w = pow(256, i as nat);
                lemma_pow_positive(256, i as nat);
                lemma_pow_adds(256, i as nat, 1);
                lemma_pow1(256);
                lemma_div_denominator(bits as int, w, 256);
                assert forall|setup: Setup, env: Assignment|
                    cfg.ok(setup) && base.sat(setup, env) && layouter.agrees(
                        env,
                    ) implies #[trigger] layouter.sat(setup, env) by {
                    assert(before.agrees(env));
                    assert(before.sat(setup, env));
                    let b = env.at(region as int, cfg.limbs, i as int);
                    assert(b == limb);
                    lemma_small_mod(b as nat, modulus() as nat);
                    assert(byte_table()[b] == b);
                    assert(setup.holds(cfg.s_limb, env, region as int, i as int));
                }
            }
            rest = rest / 256;
            i += 1;
        }
        let ghost filled = *layouter;
        layouter.enable(region, cfg.s_sum, n - 1);
        let c = layouter.assign_advice(region, cfg.value, n - 1, value);
        proof {
            let r = region as int;
            let w = pow(2, cfg.n_bits as nat);
            lemma_pow2_128(cfg.n_bits as nat);
            lemma_pow_256(n as nat);
            assert(8 * n == cfg.n_bits);
            assert(pow(256, n as nat) == w);
            assert forall|setup: Setup, env: Assignment|
                cfg.ok(setup) && #[trigger] layouter.sat(setup, env) implies 0 <= env.cell(c.cell)
                < w by {
                assert(filled.sat(setup, env));
                assert forall|k: int| 0 <= k < n implies 0 <= #[trigger] env.at(
                    r,
                    cfg.limbs,
                    (n - 1) - (n - 1 - k),
                ) < 256 by {
                    assert(setup.holds(cfg.s_limb, env, r, k));
                    let b = env.at(r, cfg.limbs, k);
                    lemma_at_range(env, r, cfg.limbs, k);
                    lemma_small_mod(b as nat, modulus() as nat);
                    let j = byte_table().index_of(b);
                    assert(byte_table()[j] == b);
                }
                lemma_digit_bound(env, r, cfg.limbs, n - 1, 256, n as int, n as nat);
                assert(setup.holds(cfg.s_sum, env, r, n - 1));
                lemma_at_range(env, r, cfg.value, n - 1);
            }
            assert forall|setup: Setup|
                cfg.ok(setup) && cfg.value != cfg.limbs && value@ == raw_value && raw_value < w
                    && base.honest(setup) implies #[trigger] layouter.honest(setup) by {
                lemma_fr_range(value);
                assert forall|env: Assignment| #[trigger] layouter.agrees(
                    env,
                ) implies layouter.sat(setup, env) by {
                    assert(filled.agrees(env));
                    assert(base.agrees(env));
                    assert(filled.sat(setup, env));
                    assert forall|k: int| 0 <= k < n implies #[trigger] env.at(
                        r,
                        cfg.limbs,
                        (n - 1) - (n - 1 - k),
                    ) == (raw_value as int / pow(256, k as nat)) % 256 by {
                        assert(bits == raw_value);
                        assert(env.at(r, cfg.limbs, k) == (bits as int / pow(256, k as nat)) % 256);
                    }
                    lemma_digit_value(
                        env,
                        r,
                        cfg.limbs,
                        n - 1,
                        256,
                        n as int,
                        n as nat,
                        raw_value as int,
                    );
                    lemma_small_mod(raw_value as nat, w as nat);
                    assert(setup.holds(cfg.s_sum, env, r, n - 1));
                }
            }
        }
        c
    }
}

} // verus!
