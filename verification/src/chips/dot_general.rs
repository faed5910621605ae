//! Dot products of fixed-point vectors: the primitive behind each output element of a matrix
//! product.
use vstd::prelude::*;
use vstd::string::*;

use crate::chips::eltwise::{
    lemma_shift_complete, lemma_shift_sound, lemma_slack_sound, rescale_expression,
    shift_expression, shift_gate, slack_expression, slack_gate, REMAINDER_BITS, SHIFTED_BITS,
};
use crate::chips::lookup_range_check::{byte_table, LookupRangeCheckChip, LookupRangeCheckConfig};
use crate::chips::range_check::{RangeCheckChip, RangeCheckConfig};
use crate::chips::reduce::{lemma_total_step, total};
use crate::digits::lemma_pow_64;
use crate::field::{centered, lemma_centered_congruent, lemma_congruent_product, modulus};
use crate::field_convert::{
    i128_to_fr, i64_to_fr, is_shifted, shifted_i64_witness, unshifted, SIGNED_SHIFT,
};
use crate::fixed_point::{
    is_i64, lemma_i18_range, lemma_product_range, lemma_rescale_unique, requantize_raw,
    requantize_raw_text, rescaled, rescale_remainder, FixedPointError, I18, SCALE_18,
};
use crate::layout::{cell_at, AssignedCell, Layouter, Mark};
use crate::plonk::{
    group_extends, lemma_at_range, Assignment, Column, ColumnKind, ConstraintSystem, Expression,
    Selector, Setup,
};
use crate::text::{decimal, unsigned_text};

verus! {

#[derive(Debug)]
pub enum DotProductError {
    /// The vectors do not both have the configured length.
    LengthMismatch { expected: usize, got_a: usize, got_b: usize },
    /// The sum of the products, or its quotient, is out of range.
    Overflow(FixedPointError),
    /// Synthesis failed.
    Circuit(String),
}

impl DotProductError {
    pub open spec fn text(self) -> Seq<char> {
        match self {
            DotProductError::LengthMismatch { expected, got_a, got_b } => {
                "dot product expects vectors of length "@ + decimal(expected as int)
                    + ", got a.len()="@ + decimal(got_a as int) + ", b.len()="@ + decimal(
                    got_b as int,
                )
            },
            DotProductError::Overflow(e) => "dot product overflow: "@ + ("fixed point error: "@
                + e.0@),
            DotProductError::Circuit(e) => "dot product circuit error: "@ + e@,
        }
    }

    /// The text of the error.
    pub fn message(&self) -> (r: String)
        ensures
            r@ == self.text(),
    {
        match self {
            DotProductError::LengthMismatch { expected, got_a, got_b } => {
                let mut r = String::from_str("dot product expects vectors of length ");
                r.append(unsigned_text(*expected as u128).as_str());
                r.append(", got a.len()=");
                r.append(unsigned_text(*got_a as u128).as_str());
                r.append(", b.len()=");
                r.append(unsigned_text(*got_b as u128).as_str());
                r
            },
            DotProductError::Overflow(e) => {
                let mut r = String::from_str("dot product overflow: ");
                r.append(e.message().as_str());
                r
            },
            DotProductError::Circuit(e) => {
                let mut r = String::from_str("dot product circuit error: ");
                r.append(e.as_str());
                r
            },
        }
    }
}

/// The products of two vectors' raw values.
pub open spec fn products(a: Seq<I18>, b: Seq<I18>) -> Seq<int> {
    Seq::new(a.len(), |i: int| a[i]@ * b[i]@)
}

pub open spec fn is_i128(v: int) -> bool {
    i128::MIN <= v <= i128::MAX
}

/// Every partial sum of the products is a 128-bit integer.
pub open spec fn products_fit(a: Seq<I18>, b: Seq<I18>) -> bool {
    forall|i: int| 0 <= i <= a.len() ==> is_i128(total(#[trigger] products(a, b).take(i)))
}

/// The dot product, requantized.
pub open spec fn dot(a: Seq<I18>, b: Seq<I18>) -> int {
    rescaled(total(products(a, b)))
}

pub open spec fn accumulation_overflow_text() -> Seq<char> {
    "dot product raw accumulation overflowed i128"@
}

/// The text of the error for products that are out of range.
pub open spec fn dot_overflow_text(a: Seq<I18>, b: Seq<I18>) -> Seq<char> {
    if products_fit(a, b) {
        requantize_raw_text(total(products(a, b)))
    } else {
        accumulation_overflow_text()
    }
}

/// The partial sums of the products, or the error of the first that is no 128-bit integer.
pub fn accumulate(a: &Vec<I18>, b: &Vec<I18>) -> (res: Result<Vec<i128>, FixedPointError>)
    requires
        a@.len() == b@.len(),
    ensures
        match res {
            Ok(sums) => {
                &&& products_fit(a@, b@)
                &&& sums@.len() == a@.len()
                &&& forall|i: int|
                    0 <= i < sums@.len() ==> #[trigger] sums@[i] == total(
                        products(a@, b@).take(i + 1),
                    )
            },
            Err(e) => !products_fit(a@, b@) && e.0@ == accumulation_overflow_text(),
        },
{
    let ghost prods = products(a@, b@);
    let mut sums: Vec<i128> = Vec::new();
    let mut sum: i128 = 0;
    let mut i: usize = 0;
    assert(prods.take(0) =~= Seq::empty());
    while i < a.len()
        invariant
            i <= a@.len(),
            a@.len() == b@.len(),
            prods == products(a@, b@),
            sum as int == total(prods.take(i as int)),
            sums@.len() == i,
            forall|j: int| 0 <= j < i ==> #[trigger] sums@[j] == total(prods.take(j + 1)),
            forall|j: int| 0 <= j <= i ==> is_i128(total(#[trigger] prods.take(j))),
        decreases a@.len() - i,
    {
        proof {
            lemma_i18_range(a@[i as int]);
            lemma_i18_range(b@[i as int]);
            lemma_product_range(a@[i as int]@, b@[i as int]@);
            lemma_total_step(prods, i as int);
        }
        let term: i128 = (a[i].raw() as i128) * (b[i].raw() as i128);
        match sum.checked_add(term) {
            Some(next) => {
                sum = next;
            },
            None => {
                assert(!is_i128(total(prods.take(i + 1))));
                return Err(
                    FixedPointError(
                        String::from_str("dot product raw accumulation overflowed i128"),
                    ),
                );
            },
        }
        sums.push(sum);
        i += 1;
    }
    Ok(sums)
}

#[derive(Clone, Copy, Debug)]
pub struct DotProductConfig {
    pub a: Column,
    pub b: Column,
    pub accumulator: Column,
    pub q: Column,
    pub r: Column,
    pub slack: Column,
    pub s_acc_start: Selector,
    pub s_acc_step: Selector,
    pub s_final: Selector,
    pub s_slack: Selector,
    pub range_q: RangeCheckConfig,
    pub range_r: RangeCheckConfig,
    pub range_r_slack: RangeCheckConfig,
    /// Shifted copies of the operands, which the gates multiply unshifted.
    pub a_shift: Column,
    pub b_shift: Column,
    pub s_shift: Selector,
    pub range_a: LookupRangeCheckConfig,
    pub range_b: LookupRangeCheckConfig,
    pub k: usize,
}

/// Vanishes where a sum is the shifted quotient times the scale, plus the remainder.
pub open spec fn final_gate(acc: int, q: int, r: int) -> int {
    acc - (q * SCALE_18 - SIGNED_SHIFT * SCALE_18) - r
}

impl DotProductConfig {
    pub open spec fn wf(self) -> bool {
        &&& self.range_a.value == self.a_shift && self.range_a.n_bits == 64
        &&& self.range_b.value == self.b_shift && self.range_b.n_bits == 64
        &&& self.range_q.value == self.q && self.range_q.n_bits == 64
        &&& self.range_r.value == self.r && self.range_r.n_bits == 60
        &&& self.range_r_slack.value == self.slack && self.range_r_slack.n_bits == 60
        &&& self.range_b.limbs == self.range_a.limbs
        &&& self.range_q.bits == self.range_a.limbs
        &&& self.range_r.bits == self.range_a.limbs
        &&& self.range_r_slack.bits == self.range_a.limbs
        &&& self.range_a.table != self.range_b.table
        &&& self.k > 0
    }

    pub open spec fn distinct(self) -> bool {
        let bits = self.range_a.limbs;
        &&& self.a != self.b && self.a != self.accumulator && self.a != self.q && self.a != self.r
            && self.a != self.slack && self.a != self.a_shift && self.a != self.b_shift
        &&& self.b != self.accumulator && self.b != self.q && self.b != self.r && self.b
            != self.slack && self.b != self.a_shift && self.b != self.b_shift
        &&& self.accumulator != self.q && self.accumulator != self.r && self.accumulator
            != self.slack && self.accumulator != self.a_shift && self.accumulator != self.b_shift
        &&& self.q != self.r && self.q != self.slack && self.q != self.a_shift && self.q
            != self.b_shift && self.q != bits
        &&& self.r != self.slack && self.r != self.a_shift && self.r != self.b_shift && self.r
            != bits
        &&& self.slack != self.a_shift && self.slack != self.b_shift && self.slack != bits
        &&& self.a_shift != self.b_shift && self.a_shift != bits && self.b_shift != bits
    }

    /// The gates of the accumulation and of the requantization, and the range checks of
    /// quotient, remainder and slack.
    pub open spec fn core_rules(self, setup: Setup) -> bool {
        &&& forall|env: Assignment, r: int, o: int| #[trigger]
            setup.holds(self.s_acc_start, env, r, o) <==> (env.at(r, self.accumulator, o) - env.at(
                r,
                self.a,
                o,
            ) * env.at(r, self.b, o)) % modulus() == 0
        &&& forall|env: Assignment, r: int, o: int| #[trigger]
            setup.holds(self.s_acc_step, env, r, o) <==> (env.at(r, self.accumulator, o) - env.at(
                r,
                self.accumulator,
                o - 1,
            ) - env.at(r, self.a, o) * env.at(r, self.b, o)) % modulus() == 0
        &&& forall|env: Assignment, r: int, o: int| #[trigger]
            setup.holds(self.s_final, env, r, o) <==> final_gate(
                env.at(r, self.accumulator, o),
                env.at(r, self.q, o),
                env.at(r, self.r, o),
            ) % modulus() == 0
        &&& forall|env: Assignment, r: int, o: int| #[trigger]
            setup.holds(self.s_slack, env, r, o) <==> slack_gate(
                env.at(r, self.r, o),
                env.at(r, self.slack, o),
            ) % modulus() == 0
        &&& self.range_q.ok(setup)
        &&& self.range_r.ok(setup)
        &&& self.range_r_slack.ok(setup)
        &&& setup.cs.linked(self.a)
        &&& setup.cs.linked(self.b)
        &&& setup.cs.linked(self.accumulator)
        &&& setup.cs.linked(self.q)
        &&& setup.cs.linked(self.r)
        &&& setup.cs.linked(self.slack)
    }

    /// What ties the operands to their shifted copies, and the copies' range checks.
    pub open spec fn operand_rules(self, setup: Setup) -> bool {
        &&& forall|env: Assignment, r: int, o: int| #[trigger]
            setup.holds(self.s_shift, env, r, o) <==> {
                &&& shift_gate(env.at(r, self.a, o), env.at(r, self.a_shift, o)) % modulus() == 0
                &&& shift_gate(env.at(r, self.b, o), env.at(r, self.b_shift, o)) % modulus() == 0
            }
        &&& self.range_a.rules(setup)
        &&& self.range_b.rules(setup)
        &&& setup.cs.linked(self.a_shift)
        &&& setup.cs.linked(self.b_shift)
    }

    pub open spec fn rules(self, setup: Setup) -> bool {
        self.core_rules(setup) && self.operand_rules(setup)
    }

    /// The byte tables of the operand checks are loaded.
    pub open spec fn loaded(self, setup: Setup) -> bool {
        self.range_a.loaded(setup) && self.range_b.loaded(setup)
    }

    pub open spec fn ok(self, setup: Setup) -> bool {
        self.rules(setup) && self.loaded(setup)
    }

    /// Rows that a lookup of the operand checks is off at satisfy it.
    pub open spec fn rests(self, setup: Setup) -> bool {
        setup.rests(self.range_a.s_limb) && setup.rests(self.range_b.s_limb)
    }

    pub proof fn lemma_rests(self, setup: Setup)
        requires
            self.ok(setup),
        ensures
            self.rests(setup),
    {
        self.range_a.lemma_rests(setup);
        self.range_b.lemma_rests(setup);
    }

    /// The signed integers in the operand columns of a region.
    pub open spec fn operands(self, env: Assignment, r: int, column: Column) -> Seq<int> {
        Seq::new(self.k as nat, |i: int| centered(env.at(r, column, i)))
    }

    /// The products of the signed integers in the operand columns of a region.
    pub open spec fn cell_products(self, env: Assignment, r: int) -> Seq<int> {
        Seq::new(
            self.k as nat,
            |i: int| centered(env.at(r, self.a, i)) * centered(env.at(r, self.b, i)),
        )
    }

    /// The operands of a region are 64-bit integers.
    pub open spec fn operands_fit(self, env: Assignment, r: int) -> bool {
        forall|i: int|
            0 <= i < self.k ==> is_i64(centered(#[trigger] env.at(r, self.a, i))) && is_i64(
                centered(env.at(r, self.b, i)),
            )
    }

    /// The quotient of a region is a shifted 64-bit integer, the dot product of the operands,
    /// requantized.
    pub open spec fn computes(self, env: Assignment, r: int) -> bool {
        let q = env.at(r, self.q, self.k - 1);
        &&& is_shifted(q)
        &&& unshifted(q) == rescaled(total(self.cell_products(env, r)))
    }

    /// The accumulation gates of the first `n` rows hold.
    pub open spec fn accumulates(self, setup: Setup, env: Assignment, r: int, n: int) -> bool {
        &&& n > 0 ==> setup.holds(self.s_acc_start, env, r, 0)
        &&& forall|j: int| 1 <= j < n ==> #[trigger] setup.holds(self.s_acc_step, env, r, j)
    }
}

/// The accumulator of a row is congruent to the sum of the products up to it.
proof fn lemma_accumulates(
    cfg: DotProductConfig,
    setup: Setup,
    env: Assignment,
    r: int,
    n: int,
    j: int,
)
    requires
        cfg.core_rules(setup),
        cfg.accumulates(setup, env, r, n),
        0 <= j < n <= cfg.k,
    ensures
        (env.at(r, cfg.accumulator, j) - total(cfg.cell_products(env, r).take(j + 1))) % modulus()
            == 0,
    decreases j,
{
    broadcast use lemma_at_range;

    let prods = cfg.cell_products(env, r);
    let (a, b) = (env.at(r, cfg.a, j), env.at(r, cfg.b, j));
    lemma_total_step(prods, j);
    lemma_centered_congruent(a);
    lemma_centered_congruent(b);
    lemma_congruent_product(a, b, centered(a), centered(b));
    let w = a * b;
    assert((w - prods[j]) % modulus() == 0);
    if j == 0 {
        assert(setup.holds(cfg.s_acc_start, env, r, 0));
        assert(prods.take(0) =~= Seq::empty());
    } else {
        lemma_accumulates(cfg, setup, env, r, n, j - 1);
        assert(setup.holds(cfg.s_acc_step, env, r, j));
    }
}

/// A sum of products of 64-bit integers is small against the field.
proof fn lemma_products_range(cfg: DotProductConfig, env: Assignment, r: int, n: nat)
    requires
        cfg.operands_fit(env, r),
        n <= cfg.k,
    ensures
        -0x4000_0000_0000_0000_0000_0000_0000_0000int * n <= total(
            cfg.cell_products(env, r).take(n as int),
        ) <= 0x4000_0000_0000_0000_0000_0000_0000_0000int * n,
    decreases n,
{
    let prods = cfg.cell_products(env, r);
    if n == 0 {
        assert(prods.take(0) =~= Seq::empty());
    } else {
        let j = n - 1;
        lemma_products_range(cfg, env, r, j as nat);
        lemma_total_step(prods, j);
        assert(is_i64(centered(env.at(r, cfg.a, j))));
        lemma_product_range(centered(env.at(r, cfg.a, j)), centered(env.at(r, cfg.b, j)));
    }
}

/// Accumulated products of 64-bit operands with a bounded quotient and remainder compute the
/// requantized dot product.
pub proof fn lemma_dot_sound(cfg: DotProductConfig, setup: Setup, env: Assignment, r: int)
    requires
        cfg.core_rules(setup),
        cfg.k > 0,
        cfg.accumulates(setup, env, r, cfg.k as int),
        cfg.operands_fit(env, r),
        setup.holds(cfg.s_final, env, r, cfg.k - 1),
        is_shifted(env.at(r, cfg.q, cfg.k - 1)),
        0 <= env.at(r, cfg.r, cfg.k - 1) < SCALE_18,
    ensures
        cfg.computes(env, r),
{
    let n = cfg.k as int;
    let prods = cfg.cell_products(env, r);
    lemma_accumulates(cfg, setup, env, r, n, n - 1);
    lemma_products_range(cfg, env, r, n as nat);
    assert(prods.take(n) =~= prods);
    let q = env.at(r, cfg.q, n - 1);
    let m = env.at(r, cfg.r, n - 1);
    let v = total(prods);
    assert(n <= 0x1_0000_0000_0000_0000int);
    assert(v == unshifted(q) * SCALE_18 + m);
    lemma_rescale_unique(v, unshifted(q), m);
}

/// The cells of a dot product's region: operands, their shifted copies, and the shifted
/// quotient.
#[derive(Debug)]
pub struct DotCells {
    pub a: Vec<AssignedCell>,
    pub b: Vec<AssignedCell>,
    pub a_shift: Vec<AssignedCell>,
    pub b_shift: Vec<AssignedCell>,
    pub q: AssignedCell,
}

impl DotCells {
    /// The cells are those of region `r` with the values of a dot product.
    pub open spec fn placed(
        self,
        cfg: DotProductConfig,
        r: int,
        a: Seq<I18>,
        b: Seq<I18>,
    ) -> bool {
        &&& self.a@.len() == cfg.k && self.b@.len() == cfg.k
        &&& forall|i: int|
            0 <= i < cfg.k ==> (#[trigger] self.a@[i]).is(r, cfg.a, i, a[i]@ % modulus())
        &&& forall|i: int|
            0 <= i < cfg.k ==> (#[trigger] self.b@[i]).is(r, cfg.b, i, b[i]@ % modulus())
        &&& self.q.is(r, cfg.q, cfg.k - 1, dot(a, b) + SIGNED_SHIFT)
        &&& self.a_shift@.len() == cfg.k && self.b_shift@.len() == cfg.k
        &&& forall|i: int|
            0 <= i < cfg.k ==> (#[trigger] self.a_shift@[i]).is(
                r,
                cfg.a_shift,
                i,
                a[i]@ + SIGNED_SHIFT,
            )
        &&& forall|i: int|
            0 <= i < cfg.k ==> (#[trigger] self.b_shift@[i]).is(
                r,
                cfg.b_shift,
                i,
                b[i]@ + SIGNED_SHIFT,
            )
    }
}

/// The values of a dot product's region hold in an assignment.
pub open spec fn dot_values(
    cfg: DotProductConfig,
    env: Assignment,
    r: int,
    a: Seq<I18>,
    b: Seq<I18>,
    n: int,
) -> bool {
    &&& forall|i: int| 0 <= i < n ==> #[trigger] env.at(r, cfg.a, i) == a[i]@ % modulus()
    &&& forall|i: int| 0 <= i < n ==> #[trigger] env.at(r, cfg.b, i) == b[i]@ % modulus()
    &&& forall|i: int|
        0 <= i < n ==> #[trigger] env.at(r, cfg.a_shift, i) == a[i]@ + SIGNED_SHIFT
    &&& forall|i: int|
        0 <= i < n ==> #[trigger] env.at(r, cfg.b_shift, i) == b[i]@ + SIGNED_SHIFT
}

/// Each of the first `n` rows ties the operands to their shifted copies.
pub open spec fn shifts_hold(
    cfg: DotProductConfig,
    setup: Setup,
    env: Assignment,
    r: int,
    n: int,
) -> bool {
    forall|j: int| 0 <= j < n ==> #[trigger] setup.holds(cfg.s_shift, env, r, j)
}

impl DotProductConfig {
    /// The layout after the first `n` rows of an accumulation.
    pub closed spec fn rows_trace(self, t: Seq<Mark>, region: nat, n: int) -> Seq<Mark>
        decreases n,
    {
        if n <= 0 {
            t
        } else {
            let i = n - 1;
            let operands = self.rows_trace(t, region, i).push(
                Mark::Advice { cell: cell_at(region, self.a, i) },
            ).push(Mark::Advice { cell: cell_at(region, self.b, i) });
            let shifts = operands.push(
                Mark::Enable {
                    region: region as usize,
                    selector: self.s_shift,
                    offset: i as usize,
                },
            ).push(Mark::Advice { cell: cell_at(region, self.a_shift, i) }).push(
                Mark::Advice { cell: cell_at(region, self.b_shift, i) },
            );
            shifts.push(Mark::Advice { cell: cell_at(region, self.accumulator, i) }).push(
                Mark::Enable {
                    region: region as usize,
                    selector: if i == 0 {
                        self.s_acc_start
                    } else {
                        self.s_acc_step
                    },
                    offset: i as usize,
                },
            )
        }
    }

    /// The layout after an accumulation and the checks of its quotient and remainder.
    pub closed spec fn sums_trace(self, t: Seq<Mark>) -> Seq<Mark> {
        let region = t.len() as usize;
        let last = self.k - 1;
        let (q, r, slack) = (
            cell_at(t.len(), self.q, last),
            cell_at(t.len(), self.r, last),
            cell_at(t.len(), self.slack, last),
        );
        let rows = self.rows_trace(t.push(Mark::Region), t.len(), self.k as int);
        let main = rows.push(
            Mark::Enable { region, selector: self.s_final, offset: last as usize },
        ).push(Mark::Enable { region, selector: self.s_slack, offset: last as usize }).push(
            Mark::Advice { cell: q },
        ).push(Mark::Advice { cell: r }).push(Mark::Advice { cell: slack });
        let t1 = self.range_q.trace(main);
        let t2 = self.range_r.trace(t1);
        let t3 = self.range_r_slack.trace(t2);
        t3.push(Mark::Region).push(
            Mark::Equal { left: q, right: self.range_q.bounded_cell(main) },
        ).push(Mark::Equal { left: r, right: self.range_r.bounded_cell(t1) }).push(
            Mark::Equal { left: slack, right: self.range_r_slack.bounded_cell(t2) },
        )
    }

    /// The layout after the range checks of the first `n` pairs of operands.
    pub closed spec fn checks_trace(self, t: Seq<Mark>, n: int) -> Seq<Mark>
        decreases n,
    {
        if n <= 0 {
            t
        } else {
            self.range_b.trace(self.range_a.trace(self.checks_trace(t, n - 1)))
        }
    }

    /// The layout after the checks from `checks` on are linked to the first `n` rows of a
    /// region.
    pub closed spec fn ties_trace(self, t: Seq<Mark>, region: nat, checks: Seq<Mark>, n: int) -> Seq<
        Mark,
    >
        decreases n,
    {
        if n <= 0 {
            t.push(Mark::Region)
        } else {
            let i = n - 1;
            let before = self.checks_trace(checks, i);
            self.ties_trace(t, region, checks, i).push(
                Mark::Equal {
                    left: cell_at(region, self.a_shift, i),
                    right: self.range_a.bounded_cell(before),
                },
            ).push(
                Mark::Equal {
                    left: cell_at(region, self.b_shift, i),
                    right: self.range_b.bounded_cell(self.range_a.trace(before)),
                },
            )
        }
    }

    /// The layout after a dot product.
    pub closed spec fn trace(self, t: Seq<Mark>) -> Seq<Mark> {
        let sums = self.sums_trace(t);
        let k = self.k as int;
        self.ties_trace(self.checks_trace(sums, k), t.len(), sums, k)
    }

    /// The layout after the byte tables.
    pub closed spec fn tables_trace(self, t: Seq<Mark>) -> Seq<Mark> {
        self.range_b.table_trace(self.range_a.table_trace(t))
    }
}

/// Lays the accumulation out in a region, each row with the shifted copies of its operands,
/// range-checks quotient, remainder and slack and links the checks to the region.
fn assign_sums(
    cfg: &DotProductConfig,
    layouter: &mut Layouter,
    a: &Vec<I18>,
    b: &Vec<I18>,
    sums: &Vec<i128>,
    q: I18,
    r: i128,
) -> (cells: DotCells)
    requires
        cfg.wf(),
        a@.len() == cfg.k,
        b@.len() == cfg.k,
        sums@.len() == cfg.k,
        forall|i: int|
            0 <= i < cfg.k ==> #[trigger] sums@[i] == total(products(a@, b@).take(i + 1)),
        q@ == dot(a@, b@),
        r == rescale_remainder(total(products(a@, b@))),
    ensures
        final(layouter).grows(*old(layouter)),
        final(layouter).trace() == cfg.sums_trace(old(layouter).trace()),
        cells.placed(*cfg, old(layouter).next(), a@, b@),
        final(layouter).has(cells.q),
        forall|env: Assignment| #[trigger]
            final(layouter).agrees(env) ==> dot_values(
                *cfg,
                env,
                old(layouter).next(),
                a@,
                b@,
                cfg.k as int,
            ),
        forall|setup: Setup, env: Assignment|
            cfg.core_rules(setup) && #[trigger] final(layouter).sat(setup, env) ==> {
                &&& cfg.operands_fit(env, old(layouter).next()) ==> cfg.computes(
                    env,
                    old(layouter).next(),
                )
                &&& is_shifted(env.cell(cells.q.cell))
                &&& shifts_hold(*cfg, setup, env, old(layouter).next(), cfg.k as int)
            },
        forall|setup: Setup|
            cfg.rules(setup) && cfg.distinct()
                && old(layouter).honest(setup) ==> #[trigger] final(layouter).honest(setup),
{
    let cfg = *cfg;
    let k: usize = cfg.k;
    let slack: i128 = SCALE_18 - 1 - r;
    let (q_fr, q_raw) = shifted_i64_witness(q.raw());
    let r_fr = i128_to_fr(r);
    let slack_fr = i128_to_fr(slack);
    let ghost base = *layouter;
    let ghost prods = products(a@, b@);
    let region: usize = layouter.region();
    let ghost g = region as int;
    let mut a_cells: Vec<AssignedCell> = Vec::new();
    let mut b_cells: Vec<AssignedCell> = Vec::new();
    let mut a_shift: Vec<AssignedCell> = Vec::new();
    let mut b_shift: Vec<AssignedCell> = Vec::new();
    let mut i: usize = 0;
    assert(prods.take(0) =~= Seq::empty());
    while i < k
        invariant
            i <= k,
            k == cfg.k,
            a@.len() == k,
            b@.len() == k,
            sums@.len() == k,
            prods == products(a@, b@),
            forall|j: int| 0 <= j < k ==> #[trigger] sums@[j] == total(prods.take(j + 1)),
            g == region,
            g == base.next(),
            g < layouter.next(),
            layouter.known == base.known,
            layouter.tables() == base.tables(),
            layouter.trace() == cfg.rows_trace(
                base.trace().push(Mark::Region),
                base.trace().len(),
                i as int,
            ),
            a_cells@.len() == i,
            b_cells@.len() == i,
            forall|j: int|
                0 <= j < i ==> (#[trigger] a_cells@[j]).is(g, cfg.a, j, a@[j]@ % modulus()),
            forall|j: int|
                0 <= j < i ==> (#[trigger] b_cells@[j]).is(g, cfg.b, j, b@[j]@ % modulus()),
            a_shift@.len() == i && b_shift@.len() == i,
            forall|j: int|
                0 <= j < i ==> (#[trigger] a_shift@[j]).is(
                    g,
                    cfg.a_shift,
                    j,
                    a@[j]@ + SIGNED_SHIFT,
                ),
            forall|j: int|
                0 <= j < i ==> (#[trigger] b_shift@[j]).is(
                    g,
                    cfg.b_shift,
                    j,
                    b@[j]@ + SIGNED_SHIFT,
                ),
            forall|env: Assignment| #[trigger]
                layouter.agrees(env) ==> base.agrees(env) && dot_values(
                    cfg,
                    env,
                    g,
                    a@,
                    b@,
                    i as int,
                ),
            forall|env: Assignment| #[trigger]
                layouter.agrees(env) && i > 0 ==> env.at(g, cfg.accumulator, i - 1) == sums@[i - 1] as int
                    % modulus(),
            forall|setup: Setup, env: Assignment| #[trigger]
                layouter.sat(setup, env) ==> base.sat(setup, env) && cfg.accumulates(
                    setup,
                    env,
                    g,
                    i as int,
                ) && shifts_hold(cfg, setup, env, g, i as int),
            forall|setup: Setup, env: Assignment|
                cfg.rules(setup) && base.sat(
                    setup,
                    env,
                ) && layouter.agrees(env) ==> #[trigger] layouter.sat(setup, env),
            base.fresh() ==> layouter.fresh(),
            base.fresh() && cfg.distinct() ==> forall|c: Column, o: int|
                #[trigger] layouter.assigned(g, c, o) ==> o < i && (c == cfg.a || c == cfg.b || c
                    == cfg.a_shift || c == cfg.b_shift || c == cfg.accumulator),
            base.fresh() && base.consistent() && cfg.distinct() ==> layouter.consistent(),
        decreases k - i,
    {
        let ghost before = *layouter;
        let a_cell = layouter.assign_advice(region, cfg.a, i, i64_to_fr(a[i].raw()));
        let b_cell = layouter.assign_advice(region, cfg.b, i, i64_to_fr(b[i].raw()));
        layouter.enable(region, cfg.s_shift, i);
        let (a_fr, _) = shifted_i64_witness(a[i].raw());
        let (b_fr, _) = shifted_i64_witness(b[i].raw());
        let ac = layouter.assign_advice(region, cfg.a_shift, i, a_fr);
        let bc = layouter.assign_advice(region, cfg.b_shift, i, b_fr);
        a_shift.push(ac);
        b_shift.push(bc);
        layouter.assign_advice(region, cfg.accumulator, i, i128_to_fr(sums[i]));
        if i == 0 {
            layouter.enable(region, cfg.s_acc_start, i);
        } else {
            layouter.enable(region, cfg.s_acc_step, i);
        }
        a_cells.push(a_cell);
        b_cells.push(b_cell);
        proof {
            let (x, y) = (a@[i as int]@, b@[i as int]@);
            let p = modulus();
            lemma_i18_range(a@[i as int]);
            lemma_i18_range(b@[i as int]);
            lemma_total_step(prods, i as int);
            assert(prods[i as int] == x * y);
            assert((x % p - x) % p == 0 && (y % p - y) % p == 0);
            lemma_congruent_product(x % p, y % p, x, y);
            let w = (x % p) * (y % p);
            let v = x * y;
            assert((w - v) % p == 0);
            lemma_shift_complete(x);
            lemma_shift_complete(y);
            assert forall|setup: Setup, env: Assignment|
                cfg.rules(setup) && base.sat(
                    setup,
                    env,
                ) && layouter.agrees(env) implies #[trigger] layouter.sat(setup, env) by {
                assert(before.agrees(env));
                assert(before.sat(setup, env));
                assert(setup.holds(cfg.s_shift, env, g, i as int));
                assert(env.at(g, cfg.accumulator, i as int) == sums@[i as int] as int % p);
                if i == 0 {
                    assert(setup.holds(cfg.s_acc_start, env, g, 0));
                } else {
                    assert(env.at(g, cfg.accumulator, i - 1) == sums@[i - 1] as int % p);
                    assert(setup.holds(cfg.s_acc_step, env, g, i as int));
                }
            }
            assert forall|env: Assignment| #[trigger] layouter.agrees(env) implies base.agrees(env)
                && dot_values(cfg, env, g, a@, b@, i + 1) by {
                assert(before.agrees(env));
            }
        }
        i += 1;
    }
    let last: usize = k - 1;
    let ghost filled = *layouter;
    layouter.enable(region, cfg.s_final, last);
    layouter.enable(region, cfg.s_slack, last);
    let q_cell = layouter.assign_advice(region, cfg.q, last, q_fr);
    let r_cell = layouter.assign_advice(region, cfg.r, last, r_fr);
    let slack_cell = layouter.assign_advice(region, cfg.slack, last, slack_fr);
    let ghost main = *layouter;

    let rq = RangeCheckChip::construct(cfg.range_q).assign(layouter, q_fr, q_raw);
    let ghost l1 = *layouter;
    let rr = RangeCheckChip::construct(cfg.range_r).assign(layouter, r_fr, r);
    let ghost l2 = *layouter;
    let rs = RangeCheckChip::construct(cfg.range_r_slack).assign(layouter, slack_fr, slack);
    let ghost l3 = *layouter;

    layouter.region();
    layouter.constrain_equal(q_cell.cell, rq.cell);
    layouter.constrain_equal(r_cell.cell, rr.cell);
    layouter.constrain_equal(slack_cell.cell, rs.cell);
    proof {
        lemma_pow_64();
        lemma_i18_range(q);
        assert(prods.take(k as int) =~= prods);
        assert forall|env: Assignment| #[trigger] layouter.agrees(env) implies dot_values(
            cfg,
            env,
            g,
            a@,
            b@,
            k as int,
        ) by {
            assert(l3.agrees(env) && l2.agrees(env) && l1.agrees(env) && main.agrees(env));
            assert(filled.agrees(env));
        }
        assert forall|setup: Setup, env: Assignment|
            cfg.core_rules(setup) && #[trigger] layouter.sat(setup, env) implies {
            &&& cfg.operands_fit(env, g) ==> cfg.computes(env, g)
            &&& is_shifted(env.cell(q_cell.cell))
            &&& shifts_hold(cfg, setup, env, g, k as int)
        } by {
            assert(l3.sat(setup, env) && l2.sat(setup, env) && l1.sat(setup, env));
            assert(main.sat(setup, env));
            assert(filled.sat(setup, env));
            assert(setup.holds(cfg.s_final, env, g, last as int));
            assert(setup.holds(cfg.s_slack, env, g, last as int));
            lemma_slack_sound(env.at(g, cfg.r, last as int), env.at(g, cfg.slack, last as int));
            if cfg.operands_fit(env, g) {
                lemma_dot_sound(cfg, setup, env, g);
            }
        }
        assert forall|setup: Setup|
            cfg.rules(setup) && cfg.distinct()
                && base.honest(setup) implies #[trigger] layouter.honest(setup) by {
            assert(main.honest(setup)) by {
                assert forall|env: Assignment| #[trigger] main.agrees(env) implies main.sat(
                    setup,
                    env,
                ) by {
                    assert(filled.agrees(env));
                    assert(base.agrees(env));
                    assert(filled.sat(setup, env));
                    let v = total(prods);
                    assert(sums@[last as int] == v);
                    vstd::arithmetic::div_mod::lemma_fundamental_div_mod(v, SCALE_18 as int);
                    assert(setup.holds(cfg.s_final, env, g, last as int));
                    assert(setup.holds(cfg.s_slack, env, g, last as int));
                }
            }
            assert(l1.honest(setup));
            assert(l2.honest(setup));
            assert(l3.honest(setup));
            assert forall|env: Assignment| #[trigger] layouter.agrees(env) implies layouter.sat(
                setup,
                env,
            ) by {
                assert(l3.agrees(env) && l2.agrees(env) && l1.agrees(env) && main.agrees(env));
                assert(l3.sat(setup, env));
            }
        }
    }
    DotCells { a: a_cells, b: b_cells, a_shift, b_shift, q: q_cell }
}

/// Lays a dot product out: the accumulation with its checks, and the range checks that bound
/// every operand to 64 bits, linked to the operands' shifted copies.
pub(crate) fn assign_dot_rows(
    cfg: &DotProductConfig,
    layouter: &mut Layouter,
    a: &Vec<I18>,
    b: &Vec<I18>,
    sums: &Vec<i128>,
    q: I18,
    r: i128,
) -> (cells: DotCells)
    requires
        cfg.wf(),
        a@.len() == cfg.k,
        b@.len() == cfg.k,
        sums@.len() == cfg.k,
        forall|i: int|
            0 <= i < cfg.k ==> #[trigger] sums@[i] == total(products(a@, b@).take(i + 1)),
        q@ == dot(a@, b@),
        r == rescale_remainder(total(products(a@, b@))),
    ensures
        final(layouter).grows(*old(layouter)),
        final(layouter).trace() == cfg.trace(old(layouter).trace()),
        cells.placed(*cfg, old(layouter).next(), a@, b@),
        final(layouter).has(cells.q),
        forall|env: Assignment| #[trigger]
            final(layouter).agrees(env) ==> dot_values(
                *cfg,
                env,
                old(layouter).next(),
                a@,
                b@,
                cfg.k as int,
            ),
        forall|setup: Setup, env: Assignment|
            cfg.ok(setup) && #[trigger] final(layouter).sat(setup, env) ==> cfg.operands_fit(
                env,
                old(layouter).next(),
            ) && cfg.computes(env, old(layouter).next()),
        forall|setup: Setup|
            cfg.ok(setup) && cfg.distinct() && old(layouter).honest(setup)
                ==> #[trigger] final(layouter).honest(setup),
{
    let cfg = *cfg;
    let k: usize = cfg.k;
    let ghost base = *layouter;
    let cells = assign_sums(&cfg, layouter, a, b, sums, q, r);
    let ghost l0 = *layouter;
    let ghost g = base.next();

    let mut ra: Vec<AssignedCell> = Vec::new();
    let mut rb: Vec<AssignedCell> = Vec::new();
    let mut i: usize = 0;
    while i < k
        invariant
            i <= k,
            k == cfg.k,
            cfg.wf(),
            a@.len() == k,
            b@.len() == k,
            ra@.len() == i,
            rb@.len() == i,
            layouter.grows(l0),
            layouter.trace() == cfg.checks_trace(l0.trace(), i as int),
            forall|j: int|
                0 <= j < i ==> (#[trigger] ra@[j]).cell == cfg.range_a.bounded_cell(
                    cfg.checks_trace(l0.trace(), j),
                ),
            forall|j: int|
                0 <= j < i ==> (#[trigger] rb@[j]).cell == cfg.range_b.bounded_cell(
                    cfg.range_a.trace(cfg.checks_trace(l0.trace(), j)),
                ),
            forall|j: int|
                0 <= j < i ==> (#[trigger] ra@[j]).cell.column == cfg.a_shift && ra@[j].value@
                    == a@[j]@ + SIGNED_SHIFT,
            forall|j: int|
                0 <= j < i ==> (#[trigger] rb@[j]).cell.column == cfg.b_shift && rb@[j].value@
                    == b@[j]@ + SIGNED_SHIFT,
            forall|env: Assignment, j: int|
                #![trigger layouter.agrees(env), ra@[j]]
                layouter.agrees(env) && 0 <= j < i ==> env.cell(ra@[j].cell) == ra@[j].value@,
            forall|env: Assignment, j: int|
                #![trigger layouter.agrees(env), rb@[j]]
                layouter.agrees(env) && 0 <= j < i ==> env.cell(rb@[j].cell) == rb@[j].value@,
            forall|setup: Setup, env: Assignment, j: int|
                #![trigger layouter.sat(setup, env), ra@[j]]
                cfg.ok(setup) && layouter.sat(setup, env) && 0 <= j < i ==> is_shifted(
                    env.cell(ra@[j].cell),
                ),
            forall|setup: Setup, env: Assignment, j: int|
                #![trigger layouter.sat(setup, env), rb@[j]]
                cfg.ok(setup) && layouter.sat(setup, env) && 0 <= j < i ==> is_shifted(
                    env.cell(rb@[j].cell),
                ),
            forall|setup: Setup|
                cfg.ok(setup) && cfg.distinct() && l0.honest(setup)
                    ==> #[trigger] layouter.honest(setup),
        decreases k - i,
    {
        proof {
            lemma_pow_64();
            lemma_i18_range(a@[i as int]);
            lemma_i18_range(b@[i as int]);
        }
        let ghost before = *layouter;
        let (a_fr, a_raw) = shifted_i64_witness(a[i].raw());
        let ca = LookupRangeCheckChip::construct(cfg.range_a).assign(layouter, a_fr, a_raw);
        let ghost mid = *layouter;
        let (b_fr, b_raw) = shifted_i64_witness(b[i].raw());
        let cb = LookupRangeCheckChip::construct(cfg.range_b).assign(layouter, b_fr, b_raw);
        ra.push(ca);
        rb.push(cb);
        proof {
            assert forall|setup: Setup|
                cfg.ok(setup) && cfg.distinct() && l0.honest(
                    setup,
                ) implies #[trigger] layouter.honest(setup) by {
                assert(before.honest(setup));
                assert(mid.honest(setup));
            }
            assert forall|setup: Setup, env: Assignment, j: int|
                #![trigger layouter.sat(setup, env), ra@[j]]
                cfg.ok(setup) && layouter.sat(setup, env) && 0 <= j < i + 1 implies is_shifted(
                env.cell(ra@[j].cell),
            ) by {
                assert(mid.sat(setup, env) && before.sat(setup, env));
            }
            assert forall|setup: Setup, env: Assignment, j: int|
                #![trigger layouter.sat(setup, env), rb@[j]]
                cfg.ok(setup) && layouter.sat(setup, env) && 0 <= j < i + 1 implies is_shifted(
                env.cell(rb@[j].cell),
            ) by {
                assert(mid.sat(setup, env) && before.sat(setup, env));
            }
            assert forall|env: Assignment, j: int|
                #![trigger layouter.agrees(env), ra@[j]]
                layouter.agrees(env) && 0 <= j < i + 1 implies env.cell(ra@[j].cell)
                == ra@[j].value@ by {
                assert(mid.agrees(env) && before.agrees(env));
            }
            assert forall|env: Assignment, j: int|
                #![trigger layouter.agrees(env), rb@[j]]
                layouter.agrees(env) && 0 <= j < i + 1 implies env.cell(rb@[j].cell)
                == rb@[j].value@ by {
                assert(mid.agrees(env) && before.agrees(env));
            }
        }
        i += 1;
    }
    let ghost l1 = *layouter;
    layouter.region();
    let mut i: usize = 0;
    while i < k
        invariant
            i <= k,
            k == cfg.k,
            cells.placed(cfg, g, a@, b@),
            ra@.len() == k,
            rb@.len() == k,
            layouter.grows(l1),
            layouter.trace() == cfg.ties_trace(
                l1.trace(),
                base.trace().len(),
                l0.trace(),
                i as int,
            ),
            forall|j: int|
                0 <= j < k ==> (#[trigger] ra@[j]).cell == cfg.range_a.bounded_cell(
                    cfg.checks_trace(l0.trace(), j),
                ),
            forall|j: int|
                0 <= j < k ==> (#[trigger] rb@[j]).cell == cfg.range_b.bounded_cell(
                    cfg.range_a.trace(cfg.checks_trace(l0.trace(), j)),
                ),
            g == base.next(),
            forall|j: int|
                0 <= j < k ==> (#[trigger] ra@[j]).cell.column == cfg.a_shift && ra@[j].value@
                    == a@[j]@ + SIGNED_SHIFT,
            forall|j: int|
                0 <= j < k ==> (#[trigger] rb@[j]).cell.column == cfg.b_shift && rb@[j].value@
                    == b@[j]@ + SIGNED_SHIFT,
            forall|env: Assignment, j: int|
                #![trigger l1.agrees(env), ra@[j]]
                l1.agrees(env) && 0 <= j < k ==> env.cell(ra@[j].cell) == ra@[j].value@,
            forall|env: Assignment, j: int|
                #![trigger l1.agrees(env), rb@[j]]
                l1.agrees(env) && 0 <= j < k ==> env.cell(rb@[j].cell) == rb@[j].value@,
            forall|env: Assignment| #[trigger]
                l1.agrees(env) ==> dot_values(cfg, env, g, a@, b@, k as int),
            forall|env: Assignment| #[trigger] layouter.agrees(env) <==> l1.agrees(env),
            forall|setup: Setup, env: Assignment, j: int|
                #![trigger layouter.sat(setup, env), ra@[j]]
                layouter.sat(setup, env) && 0 <= j < i ==> env.at(g, cfg.a_shift, j)
                    == env.cell(ra@[j].cell),
            forall|setup: Setup, env: Assignment, j: int|
                #![trigger layouter.sat(setup, env), rb@[j]]
                layouter.sat(setup, env) && 0 <= j < i ==> env.at(g, cfg.b_shift, j)
                    == env.cell(rb@[j].cell),
            forall|setup: Setup, env: Assignment|
                cfg.ok(setup) && l1.sat(setup, env) && layouter.agrees(env)
                    ==> #[trigger] layouter.sat(setup, env),
            l1.fresh() ==> layouter.fresh(),
            l1.consistent() ==> layouter.consistent(),
        decreases k - i,
    {
        let ghost before = *layouter;
        layouter.constrain_equal(cells.a_shift[i].cell, ra[i].cell);
        layouter.constrain_equal(cells.b_shift[i].cell, rb[i].cell);
        proof {
            let ca = cells.a_shift@[i as int];
            let cb = cells.b_shift@[i as int];
            assert(ca.is(g, cfg.a_shift, i as int, a@[i as int]@ + SIGNED_SHIFT));
            assert(cb.is(g, cfg.b_shift, i as int, b@[i as int]@ + SIGNED_SHIFT));
            assert forall|setup: Setup, env: Assignment|
                cfg.ok(setup) && l1.sat(setup, env) && layouter.agrees(
                    env,
                ) implies #[trigger] layouter.sat(setup, env) by {
                assert(before.agrees(env));
                assert(l1.agrees(env));
                assert(before.sat(setup, env));
                assert(env.cell(ra@[i as int].cell) == ra@[i as int].value@);
                assert(env.cell(rb@[i as int].cell) == rb@[i as int].value@);
                assert(env.at(g, cfg.a_shift, i as int) == a@[i as int]@ + SIGNED_SHIFT);
                assert(env.at(g, cfg.b_shift, i as int) == b@[i as int]@ + SIGNED_SHIFT);
            }
            assert forall|setup: Setup, env: Assignment, j: int|
                #![trigger layouter.sat(setup, env), ra@[j]]
                layouter.sat(setup, env) && 0 <= j < i + 1 implies env.at(g, cfg.a_shift, j)
                == env.cell(ra@[j].cell) by {
                assert(before.sat(setup, env));
            }
            assert forall|setup: Setup, env: Assignment, j: int|
                #![trigger layouter.sat(setup, env), rb@[j]]
                layouter.sat(setup, env) && 0 <= j < i + 1 implies env.at(g, cfg.b_shift, j)
                == env.cell(rb@[j].cell) by {
                assert(before.sat(setup, env));
            }
        }
        i += 1;
    }
    proof {
        broadcast use lemma_at_range;

        assert forall|setup: Setup, env: Assignment|
            cfg.ok(setup) && #[trigger] layouter.sat(setup, env) implies cfg.operands_fit(
            env,
            g,
        ) && cfg.computes(env, g) by {
            assert(l1.sat(setup, env) && l0.sat(setup, env));
            assert(shifts_hold(cfg, setup, env, g, k as int));
            assert forall|j: int| 0 <= j < k implies is_i64(
                centered(#[trigger] env.at(g, cfg.a, j)),
            ) && is_i64(centered(env.at(g, cfg.b, j))) by {
                assert(setup.holds(cfg.s_shift, env, g, j));
                assert(is_shifted(env.cell(ra@[j].cell)));
                assert(is_shifted(env.cell(rb@[j].cell)));
                lemma_shift_sound(env.at(g, cfg.a, j), env.at(g, cfg.a_shift, j));
                lemma_shift_sound(env.at(g, cfg.b, j), env.at(g, cfg.b_shift, j));
            }
        }
        assert forall|setup: Setup|
            cfg.ok(setup) && cfg.distinct() && base.honest(
                setup,
            ) implies #[trigger] layouter.honest(setup) by {
            assert(l0.honest(setup));
            assert(l1.honest(setup));
        }
    }
    cells
}

pub struct DotProductChip {
    pub config: DotProductConfig,
}

impl DotProductChip {
    /// `k` is the length of the vectors.
    pub fn configure(
        meta: &mut ConstraintSystem,
        a: Column,
        b: Column,
        accumulator: Column,
        q: Column,
        r: Column,
        slack: Column,
        bits: Column,
        k: usize,
    ) -> (config: DotProductConfig)
        requires
            k > 0,
            old(meta).advice + 2 <= usize::MAX,
            old(meta).tables + 2 <= usize::MAX,
        ensures
            config.wf(),
            config.a == a && config.b == b && config.accumulator == accumulator && config.q == q
                && config.r == r && config.slack == slack && config.range_a.limbs == bits
                && config.k == k,
            config.a_shift == (Column { kind: ColumnKind::Advice, index: old(meta).advice }),
            config.b_shift == (Column {
                kind: ColumnKind::Advice,
                index: (old(meta).advice + 1) as usize,
            }),
            config.range_a.table.0 == old(meta).tables,
            config.range_b.table.0 == old(meta).tables + 1,
            final(meta).advice == old(meta).advice + 2,
            final(meta).tables == old(meta).tables + 2,
            final(meta).fixed == old(meta).fixed,
            final(meta).instance == old(meta).instance,
            final(meta).constants@ == old(meta).constants@,
            final(meta).rules@.len() == old(meta).rules@.len() + 15,
            final(meta).extends(*old(meta)),
            forall|setup: Setup|
                setup.cs.extends(*final(meta)) ==> #[trigger] config.rules(setup),
            forall|setup: Setup|
                #![trigger setup.cs.extends(*final(meta))]
                setup.cs.extends(*final(meta)) && config.loaded(setup)
                    ==> setup.rests_between(*old(meta), *final(meta)),
    {
        meta.enable_equality(a);
        meta.enable_equality(b);
        meta.enable_equality(accumulator);
        meta.enable_equality(q);
        meta.enable_equality(r);
        meta.enable_equality(slack);
        let s_acc_start = meta.gate(
            Expression::cell(accumulator).minus(Expression::cell(a).times(Expression::cell(b))),
        );
        let s_acc_step = meta.gate(
            Expression::cell(accumulator).minus(Expression::cell_at(accumulator, -1)).minus(
                Expression::cell(a).times(Expression::cell(b)),
            ),
        );
        let s_final = meta.gate(
            Expression::cell(accumulator).minus(rescale_expression(q)).minus(Expression::cell(r)),
        );
        let s_slack = meta.gate(slack_expression(r, slack));
        let a_shift = meta.advice_column();
        let b_shift = meta.advice_column();
        meta.enable_equality(a_shift);
        meta.enable_equality(b_shift);
        let s_shift = meta.gate_pair(shift_expression(a, a_shift), shift_expression(b, b_shift));
        let range_a = LookupRangeCheckChip::configure(meta, a_shift, bits, SHIFTED_BITS);
        let range_b = LookupRangeCheckChip::configure(meta, b_shift, bits, SHIFTED_BITS);
        let range_q = RangeCheckChip::configure(meta, q, bits, SHIFTED_BITS);
        let range_r = RangeCheckChip::configure(meta, r, bits, REMAINDER_BITS);
        let range_r_slack = RangeCheckChip::configure(meta, slack, bits, REMAINDER_BITS);
        let config = DotProductConfig {
            a,
            b,
            accumulator,
            q,
            r,
            slack,
            s_acc_start,
            s_acc_step,
            s_final,
            s_slack,
            range_q,
            range_r,
            range_r_slack,
            a_shift,
            b_shift,
            s_shift,
            range_a,
            range_b,
            k,
        };
        proof {
            broadcast use group_extends;

            assert forall|setup: Setup| setup.cs.extends(*meta) implies #[trigger] config.rules(
                setup,
            ) by {}
        }
        config
    }

    pub fn construct(config: DotProductConfig) -> (chip: Self)
        ensures
            chip.config == config,
    {
        DotProductChip { config }
    }

    /// Loads the byte tables of the operand checks. Called once in a synthesis.
    pub fn load_range_table(&self, layouter: &mut Layouter)
        requires
            self.config.wf(),
            (old(layouter).tables())(self.config.range_a.table.0 as int).len() == 0,
            (old(layouter).tables())(self.config.range_b.table.0 as int).len() == 0,
        ensures
            final(layouter).only_loads(*old(layouter)),
            final(layouter).trace() == self.config.tables_trace(old(layouter).trace()),
            (final(layouter).tables())(self.config.range_a.table.0 as int) == byte_table(),
            (final(layouter).tables())(self.config.range_b.table.0 as int) == byte_table(),
            forall|t: int|
                t != self.config.range_a.table.0 && t != self.config.range_b.table.0
                    ==> #[trigger] (final(layouter).tables())(t) == (old(layouter).tables())(t),
    {
        LookupRangeCheckChip::construct(self.config.range_a).load_table(layouter);
        LookupRangeCheckChip::construct(self.config.range_b).load_table(layouter);
    }

    /// Lays a dot product out with every operand bounded to 64 bits and returns its requantized
    /// value. Nothing is laid out where the lengths are wrong or a value is out of range.
    pub fn assign(&self, layouter: &mut Layouter, a: Vec<I18>, b: Vec<I18>) -> (res: Result<
        I18,
        DotProductError,
    >)
        requires
            self.config.wf(),
        ensures
            res is Ok <==> a@.len() == self.config.k && b@.len() == self.config.k && products_fit(
                a@,
                b@,
            ) && is_i64(dot(a@, b@)),
            res matches Err(e) ==> *final(layouter) == *old(layouter) && match e {
                DotProductError::LengthMismatch { expected, got_a, got_b } => {
                    &&& a@.len() != self.config.k || b@.len() != self.config.k
                    &&& expected == self.config.k && got_a == a@.len() && got_b == b@.len()
                },
                DotProductError::Overflow(t) => {
                    &&& a@.len() == self.config.k && b@.len() == self.config.k
                    &&& t.0@ == dot_overflow_text(a@, b@)
                },
                DotProductError::Circuit(t) => false,
            },
            res matches Ok(q) ==> {
                let r = old(layouter).next();
                &&& final(layouter).grows(*old(layouter))
                &&& q@ == dot(a@, b@)
                &&& forall|env: Assignment| #[trigger]
                    final(layouter).agrees(env) ==> dot_values(
                        self.config,
                        env,
                        r,
                        a@,
                        b@,
                        self.config.k as int,
                    ) && env.at(r, self.config.q, self.config.k - 1) == q@ + SIGNED_SHIFT
                &&& forall|setup: Setup, env: Assignment|
                    self.config.ok(setup) && #[trigger] final(layouter).sat(setup, env)
                        ==> self.config.operands_fit(env, r) && self.config.computes(env, r)
                &&& forall|setup: Setup|
                    self.config.ok(setup) && self.config.distinct() && old(layouter).honest(setup)
                        ==> #[trigger] final(layouter).honest(setup)
            },
    {
        let cfg = self.config;
        let k: usize = cfg.k;
        if a.len() != k || b.len() != k {
            return Err(
                DotProductError::LengthMismatch { expected: k, got_a: a.len(), got_b: b.len() },
            );
        }
        let sums: Vec<i128> = match accumulate(&a, &b) {
            Ok(sums) => sums,
            Err(e) => {
                return Err(DotProductError::Overflow(e));
            },
        };
        let ghost prods = products(a@, b@);
        assert(prods.take(k as int) =~= prods);
        let (q, r): (I18, i128) = match requantize_raw(sums[k - 1]) {
            Ok(v) => v,
            Err(e) => {
                return Err(DotProductError::Overflow(e));
            },
        };
        let cells = assign_dot_rows(&cfg, layouter, &a, &b, &sums, q, r);
        assert(layouter.has(cells.q));
        Ok(q)
    }
}

} // verus!
