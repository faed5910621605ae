//! What the chips compute.
use vstd::arithmetic::div_mod::*;
use vstd::arithmetic::mul::*;
use vstd::prelude::*;

use crate::chips::div::{quotient, quotient_remainder};
use crate::chips::dot_general::{dot, dot_overflow_text, is_i128, products, products_fit};
use crate::chips::embed_lookup::dimension;
use crate::chips::layer_norm::{squares, LayerNormConfig};
use crate::chips::lookup::{
    in_domain, input_rows, is_function_row, lemma_value_at, output_rows, value_at, LookupError,
    PAD_INPUT_RAW, PAD_OUTPUT_RAW,
};
use crate::chips::reduce::{lemma_mean_rounds_down, lemma_total_concat, raws, total};
use crate::chips::rms_norm::RmsNormConfig;
use crate::chips::softmax::{exponentials, fails_at, SoftmaxChip, SoftmaxError};
use crate::field::{lemma_centered_of, modulus};
use crate::fixed_point::{
    i18, is_i64, lemma_i18, lemma_i18_ext, lemma_i18_range, lemma_rescale_products,
    lemma_rescale_rounds_down, requantize_raw_text, rescaled, I18,
};
use crate::plonk::has_pair;

verus! {

/// Fixed-point division by a positive number rounds down: the quotient is the largest integer
/// whose multiple by the divisor is not above the numerator times ten to the eighteenth, and the
/// remainder is what is left. Dividing by one changes nothing, and a number divided by itself is
/// one.
pub proof fn lemma_quotient_rounds_down(n: int, d: int)
    requires
        d > 0,
    ensures
        quotient(n, d) * d <= n * 1_000_000_000_000_000_000 < (quotient(n, d) + 1) * d,
        quotient_remainder(n, d) == n * 1_000_000_000_000_000_000 - quotient(n, d) * d,
        quotient(n, 1_000_000_000_000_000_000) == n,
        quotient(d, d) == 1_000_000_000_000_000_000,
{
    let (v, q) = (n * 1_000_000_000_000_000_000, quotient(n, d));
    lemma_fundamental_div_mod(v, d);
    lemma_mod_bound(v, d);
    assert(d * q == q * d && (q + 1) * d == q * d + d) by (nonlinear_arith);
    lemma_div_multiples_vanish(1_000_000_000_000_000_000, d);
    lemma_mul_is_commutative(d, 1_000_000_000_000_000_000);
}

/// A dot product grows pair by pair: vectors written one after the other have the dot product of
/// the parts, but for the rounding of the two; a pair has the product of its numbers.
pub proof fn lemma_dot_adds(a: Seq<I18>, b: Seq<I18>, c: Seq<I18>, d: Seq<I18>, x: I18, y: I18)
    requires
        a.len() == b.len(),
        c.len() == d.len(),
    ensures
        total(products(a + c, b + d)) == total(products(a, b)) + total(products(c, d)),
        dot(a, b) + dot(c, d) <= dot(a + c, b + d) <= dot(a, b) + dot(c, d) + 1,
        total(products(seq![x], seq![y])) == x@ * y@,
        dot(seq![x], seq![y]) * 1_000_000_000_000_000_000 <= x@ * y@ < (dot(seq![x], seq![y]) + 1)
            * 1_000_000_000_000_000_000,
{
    assert(products(a + c, b + d) =~= products(a, b) + products(c, d));
    lemma_total_concat(products(a, b), products(c, d));
    lemma_rescale_rounds_down(total(products(a, b)));
    lemma_rescale_rounds_down(total(products(c, d)));
    lemma_rescale_rounds_down(total(products(a + c, b + d)));
    let one = products(seq![x], seq![y]);
    assert(one =~= seq![x@ * y@]);
    assert(one.drop_last() =~= Seq::<int>::empty());
    reveal_with_fuel(total, 2);
    lemma_rescale_rounds_down(x@ * y@);
}

/// A dot product rounds the sum of the products down and does not depend on the order of the two
/// vectors.
pub proof fn lemma_dot_rounds_down(a: Seq<I18>, b: Seq<I18>)
    requires
        a.len() == b.len(),
    ensures
        dot(a, b) * 1_000_000_000_000_000_000 <= total(products(a, b)),
        total(products(a, b)) < (dot(a, b) + 1) * 1_000_000_000_000_000_000,
        dot(a, b) == dot(b, a),
{
    lemma_rescale_rounds_down(total(products(a, b)));
    assert forall|i: int| 0 <= i < a.len() implies #[trigger] products(a, b)[i] == products(
        b,
        a,
    )[i] by {
        lemma_mul_is_commutative(a[i]@, b[i]@);
    }
    assert(products(a, b) =~= products(b, a));
}

/// A lookup gives the output at the first point that equals the input, and nothing where no
/// point does.
pub proof fn lemma_value_at_first(domain: Seq<(I18, I18)>, x: int, i: int)
    requires
        0 <= i < domain.len(),
        domain[i].0@ == x,
        forall|j: int| 0 <= j < i ==> (#[trigger] domain[j]).0@ != x,
    ensures
        value_at(domain, x) == Some(domain[i].1),
    decreases domain.len(),
{
    if i > 0 {
        let rest = domain.drop_first();
        assert(domain[0].0@ != x);
        assert forall|j: int| 0 <= j < i - 1 implies (#[trigger] rest[j]).0@ != x by {
            assert(rest[j] == domain[j + 1]);
        }
        lemma_value_at_first(rest, x, i - 1);
    }
}

/// The rows of a lookup's table are the points of the domain with their outputs and the one
/// reserved row, and no others.
pub proof fn lemma_table_is_the_function(domain: Seq<(I18, I18)>, x: int, y: int)
    requires
        is_i64(x),
        is_i64(y),
    ensures
        has_pair(input_rows(domain), output_rows(domain), x % modulus(), y % modulus())
            <==> in_domain(domain, x, y) || (x == i64::MIN && y == 0),
        is_function_row(domain, x, y) <==> in_domain(domain, x, y) || (x == i64::MIN && y == 0),
{
    broadcast use lemma_i18_range;

    let (xs, ys) = (input_rows(domain), output_rows(domain));
    lemma_centered_of(x);
    lemma_centered_of(y);
    let n = domain.len() as int;
    if has_pair(xs, ys, x % modulus(), y % modulus()) {
        let k = choose|k: int|
            0 <= k < xs.len() && k < ys.len() && #[trigger] xs[k] == x % modulus() && ys[k] == y
                % modulus();
        if k < n {
            lemma_centered_of(domain[k].0@);
            lemma_centered_of(domain[k].1@);
        } else {
            lemma_centered_of(PAD_INPUT_RAW as int);
            lemma_centered_of(PAD_OUTPUT_RAW as int);
        }
    }
    if is_function_row(domain, x, y) {
        if in_domain(domain, x, y) {
            let k = choose|k: int|
                0 <= k < domain.len() && (#[trigger] domain[k]).0@ == x && domain[k].1@ == y;
            assert(xs[k] == x % modulus() && ys[k] == y % modulus());
        } else {
            assert(xs[n] == x % modulus() && ys[n] == y % modulus());
        }
    }
}

/// A dimension of an embedding table maps each index to the entry of its row, and no other
/// number to anything.
pub proof fn lemma_dimension_is_a_column(table: Seq<Vec<I18>>, dim: int, x: int)
    requires
        table.len() <= i64::MAX,
    ensures
        0 <= x < table.len() ==> value_at(dimension(table, dim), x) == Some(table[x]@[dim]),
        !(0 <= x < table.len()) ==> value_at(dimension(table, dim), x) is None,
{
    broadcast use lemma_i18;

    let f = dimension(table, dim);
    if 0 <= x < table.len() {
        assert(f[x].0@ == x);
        assert forall|j: int| 0 <= j < x implies (#[trigger] f[j]).0@ != x by {
            assert(i18(j)@ == j);
        }
        lemma_value_at_first(f, x, x);
    } else {
        lemma_value_at(f, x);
        if value_at(f, x) is Some {
            let i = choose|i: int|
                0 <= i < f.len() && (#[trigger] f[i]).0@ == x && f[i].1@ == value_at(
                    f,
                    x,
                )->Some_0@;
            assert(i18(i)@ == i);
        }
    }
}

/// The variance is the mean of the squared deviations from the mean, each square and each mean in
/// units of ten to the eighteenth and rounded down.
pub proof fn lemma_variance(config: LayerNormConfig, xs: Seq<int>) -> (sq: Seq<int>)
    ensures
        config.mean(xs) * 1_000_000_000_000_000_000 <= total(xs)
            * config.reduce_mean.reciprocal@ < (config.mean(xs) + 1) * 1_000_000_000_000_000_000,
        sq.len() == xs.len(),
        forall|i: int|
            0 <= i < xs.len() ==> {
                let d = xs[i] - config.mean(xs);
                (#[trigger] sq[i]) * 1_000_000_000_000_000_000 <= d * d < (sq[i] + 1)
                    * 1_000_000_000_000_000_000
            },
        config.variance(xs) * 1_000_000_000_000_000_000 <= total(sq)
            * config.reduce_mean.reciprocal@ < (config.variance(xs) + 1)
            * 1_000_000_000_000_000_000,
{
    let m = config.mean(xs);
    let sq = squares(config.diffs(xs));
    lemma_mean_rounds_down(config.reduce_mean, xs);
    lemma_mean_rounds_down(config.reduce_mean, sq);
    assert forall|i: int| 0 <= i < xs.len() implies {
        let d = xs[i] - m;
        (#[trigger] sq[i]) * 1_000_000_000_000_000_000 <= d * d < (sq[i] + 1)
            * 1_000_000_000_000_000_000
    } by {
        lemma_rescale_rounds_down((xs[i] - m) * (xs[i] - m));
    }
    sq
}

/// A layer normalization puts in each place the deviation from the mean times the reciprocal
/// square root, in units of ten to the eighteenth and rounded down. Where every number is the
/// mean, the variance and all outputs are zero.
pub proof fn lemma_layer_norm_elements(config: LayerNormConfig, xs: Seq<int>, v: int)
    ensures
        config.normalized(xs, v).len() == xs.len(),
        forall|i: int|
            0 <= i < xs.len() ==> {
                let z = #[trigger] config.normalized(xs, v)[i];
                z * 1_000_000_000_000_000_000 <= (xs[i] - config.mean(xs)) * v < (z + 1)
                    * 1_000_000_000_000_000_000
            },
        (forall|i: int| 0 <= i < xs.len() ==> #[trigger] xs[i] == config.mean(xs)) ==> {
            &&& config.variance(xs) == 0
            &&& forall|i: int| 0 <= i < xs.len() ==> #[trigger] config.normalized(xs, v)[i] == 0
        },
{
    let m = config.mean(xs);
    let out = config.normalized(xs, v);
    assert forall|i: int| 0 <= i < xs.len() implies {
        let z = #[trigger] out[i];
        z * 1_000_000_000_000_000_000 <= (xs[i] - m) * v < (z + 1) * 1_000_000_000_000_000_000
    } by {
        lemma_rescale_rounds_down((xs[i] - m) * v);
    }
    if forall|i: int| 0 <= i < xs.len() ==> #[trigger] xs[i] == m {
        let sq = squares(config.diffs(xs));
        lemma_rescale_products(0, 0);
        assert forall|i: int| 0 <= i < sq.len() implies #[trigger] sq[i] == 0 by {
            assert(xs[i] == m);
        }
        lemma_total_zero(sq);
        assert forall|i: int| 0 <= i < xs.len() implies #[trigger] out[i] == 0 by {
            assert(xs[i] == m);
        }
    }
}

proof fn lemma_total_zero(s: Seq<int>)
    requires
        forall|i: int| 0 <= i < s.len() ==> #[trigger] s[i] == 0,
    ensures
        total(s) == 0,
    decreases s.len(),
{
    if s.len() > 0 {
        let rest = s.drop_last();
        assert forall|i: int| 0 <= i < rest.len() implies #[trigger] rest[i] == 0 by {
            assert(rest[i] == s[i]);
        }
        lemma_total_zero(rest);
        assert(s[s.len() - 1] == 0);
    }
}

/// The mean square is the mean of the squares, each square and the mean in units of ten to the
/// eighteenth and rounded down. The signs of the numbers leave no trace in it.
pub proof fn lemma_mean_square(config: RmsNormConfig, xs: Seq<int>, ys: Seq<int>) -> (sq: Seq<int>)
    requires
        ys.len() == xs.len(),
        forall|i: int| 0 <= i < xs.len() ==> #[trigger] ys[i] == xs[i] || ys[i] == -xs[i],
    ensures
        sq.len() == xs.len(),
        forall|i: int|
            0 <= i < xs.len() ==> (#[trigger] sq[i]) * 1_000_000_000_000_000_000 <= xs[i] * xs[i]
                < (sq[i] + 1) * 1_000_000_000_000_000_000,
        config.mean_square(xs) * 1_000_000_000_000_000_000 <= total(sq)
            * config.reduce_mean.reciprocal@ < (config.mean_square(xs) + 1)
            * 1_000_000_000_000_000_000,
        config.mean_square(ys) == config.mean_square(xs),
{
    let sq = squares(xs);
    assert forall|i: int| 0 <= i < xs.len() implies (#[trigger] sq[i])
        * 1_000_000_000_000_000_000 <= xs[i] * xs[i] < (sq[i] + 1)
        * 1_000_000_000_000_000_000 by {
        lemma_rescale_rounds_down(xs[i] * xs[i]);
    }
    assert forall|i: int| 0 <= i < xs.len() implies #[trigger] squares(ys)[i] == sq[i] by {
        let (x, y) = (xs[i], ys[i]);
        assert(ys[i] == xs[i] || ys[i] == -xs[i]);
        assert(y * y == x * x) by (nonlinear_arith)
            requires
                y == x || y == -x,
        ;
    }
    assert(squares(ys) =~= sq);
    lemma_mean_rounds_down(config.reduce_mean, sq);
    sq
}

/// A normalization by the root mean square puts in each place the input times the reciprocal
/// square root times the weight, each product in units of ten to the eighteenth and rounded down.
pub proof fn lemma_rms_norm_places(
    config: RmsNormConfig,
    xs: Seq<int>,
    ws: Seq<int>,
    v: int,
    i: int,
) -> (h: int)
    requires
        ws.len() == xs.len(),
        0 <= i < xs.len(),
    ensures
        config.normalized(xs, ws, v).len() == xs.len(),
        h * 1_000_000_000_000_000_000 <= xs[i] * v < (h + 1) * 1_000_000_000_000_000_000,
        ({
            let z = config.normalized(xs, ws, v)[i];
            z * 1_000_000_000_000_000_000 <= h * ws[i] < (z + 1) * 1_000_000_000_000_000_000
        }),
{
    let h = rescaled(xs[i] * v);
    lemma_rescale_rounds_down(xs[i] * v);
    lemma_rescale_rounds_down(h * ws[i]);
    h
}

/// The outputs of a softmax are the shares of the inputs' exponentials in their positive sum,
/// rounded down. They add up to one, but for the rounding of each, and a larger exponential does
/// not have a smaller share.
pub proof fn lemma_softmax_shares(chip: SoftmaxChip, inputs: Seq<I18>, outs: Seq<I18>) -> (es: Seq<
    int,
>)
    requires
        chip.computes(inputs, outs),
    ensures
        inputs.len() == chip.config.k,
        outs.len() == inputs.len(),
        es.len() == inputs.len(),
        forall|i: int|
            0 <= i < es.len() ==> value_at(chip.domain(), inputs[i]@) is Some && #[trigger] es[i]
                == value_at(chip.domain(), inputs[i]@)->Some_0@,
        total(es) > 0,
        forall|i: int|
            0 <= i < outs.len() ==> (#[trigger] outs[i])@ * total(es) <= es[i]
                * 1_000_000_000_000_000_000 < (outs[i]@ + 1) * total(es),
        1_000_000_000_000_000_000 - outs.len() <= total(raws(outs)) <= 1_000_000_000_000_000_000,
        forall|i: int, j: int|
            0 <= i < outs.len() && 0 <= j < outs.len() && es[i] <= es[j] ==> (
            #[trigger] outs[i])@ <= (#[trigger] outs[j])@,
{
    let es = raws(exponentials(chip.domain(), inputs));
    let sum = total(es);
    assert forall|i: int| 0 <= i < es.len() implies value_at(chip.domain(), inputs[i]@) is Some
        && #[trigger] es[i] == value_at(chip.domain(), inputs[i]@)->Some_0@ by {}
    assert forall|i: int| 0 <= i < outs.len() implies (#[trigger] outs[i])@ * sum <= es[i]
        * 1_000_000_000_000_000_000 < (outs[i]@ + 1) * sum by {
        lemma_quotient_rounds_down(es[i], sum);
    }
    let qs = raws(outs);
    assert forall|i: int| 0 <= i < qs.len() implies (#[trigger] qs[i]) * sum <= es[i]
        * 1_000_000_000_000_000_000 < (qs[i] + 1) * sum by {
        assert(qs[i] == outs[i]@);
    }
    lemma_shares(es, qs, sum);
    let (t, n) = (total(qs), outs.len() as int);
    assert(t <= 1_000_000_000_000_000_000 && 1_000_000_000_000_000_000 - n <= t)
        by (nonlinear_arith)
        requires
            sum > 0,
            t * sum <= sum * 1_000_000_000_000_000_000 <= (t + n) * sum,
    ;
    assert forall|i: int, j: int|
        0 <= i < outs.len() && 0 <= j < outs.len() && es[i] <= es[j] implies (
    #[trigger] outs[i])@ <= (#[trigger] outs[j])@ by {
        let (x, y) = (outs[i]@, outs[j]@);
        assert(x <= y) by (nonlinear_arith)
            requires
                sum > 0,
                x * sum <= es[i] * 1_000_000_000_000_000_000,
                es[j] * 1_000_000_000_000_000_000 < (y + 1) * sum,
                es[i] <= es[j],
        ;
    }
    es
}

proof fn lemma_shares(es: Seq<int>, qs: Seq<int>, sum: int)
    requires
        qs.len() == es.len(),
        forall|i: int|
            0 <= i < qs.len() ==> (#[trigger] qs[i]) * sum <= es[i] * 1_000_000_000_000_000_000
                < (qs[i] + 1) * sum,
    ensures
        total(qs) * sum <= total(es) * 1_000_000_000_000_000_000 <= (total(qs) + qs.len()) * sum,
    decreases qs.len(),
{
    if qs.len() > 0 {
        let (e, q) = (es.drop_last(), qs.drop_last());
        assert forall|i: int| 0 <= i < q.len() implies (#[trigger] q[i]) * sum <= e[i]
            * 1_000_000_000_000_000_000 < (q[i] + 1) * sum by {
            assert(q[i] == qs[i] && e[i] == es[i]);
        }
        lemma_shares(e, q, sum);
        let (x, y) = (total(q), qs.last());
        let n = q.len() as int;
        assert(qs[qs.len() - 1] == y);
        assert((x + y) * sum == x * sum + y * sum) by (nonlinear_arith);
        assert((x + y + n + 1) * sum == (x + n) * sum + (y + 1) * sum) by (nonlinear_arith);
    } else {
        assert((total(qs) + qs.len()) * sum == 0) by (nonlinear_arith)
            requires
                total(qs) == 0,
                qs.len() == 0,
        ;
    }
}

/// A softmax has one outcome: it does not both compute and fail, and what it computes is
/// determined by its inputs.
pub proof fn lemma_softmax_unique(
    chip: SoftmaxChip,
    inputs: Seq<I18>,
    outs: Seq<I18>,
    others: Seq<I18>,
    e: SoftmaxError,
)
    requires
        chip.computes(inputs, outs),
    ensures
        chip.computes(inputs, others) ==> outs == others,
        !chip.fails_with(inputs, e),
{
    if chip.computes(inputs, others) {
        assert forall|i: int| 0 <= i < outs.len() implies outs[i] == others[i] by {
            lemma_i18_ext(outs[i], others[i]);
        }
        assert(outs =~= others);
    }
    if chip.fails_with(inputs, e) {
        let es = raws(exponentials(chip.domain(), inputs));
        if let SoftmaxError::Div(d) = e {
            let i = choose|i: int| #[trigger] fails_at(es, total(es), d, i);
            assert(is_i64(quotient(es[i], total(es))));
        }
    }
}

/// A softmax succeeds exactly on inputs of the configured count that are all points of the table's
/// domain, whose exponentials have a positive sum, and whose shares are 64-bit integers.
pub proof fn lemma_softmax_outcome(
    chip: SoftmaxChip,
    inputs: Seq<I18>,
    outs: Seq<I18>,
    e: SoftmaxError,
)
    ensures
        ({
            let f = chip.domain();
            let es = Seq::new(inputs.len(), |i: int| value_at(f, inputs[i]@)->Some_0@);
            let known = forall|i: int|
                0 <= i < inputs.len() ==> exists|j: int|
                    0 <= j < f.len() && (#[trigger] f[j]).0@ == (#[trigger] inputs[i])@;
            let good = inputs.len() == chip.config.k && known && total(es) > 0 && forall|i: int|
                0 <= i < es.len() ==> is_i64(quotient(#[trigger] es[i], total(es)));
            &&& chip.computes(inputs, outs) ==> good
            &&& chip.fails_with(inputs, e) ==> !good
        }),
{
    let f = chip.domain();
    let es = Seq::new(inputs.len(), |i: int| value_at(f, inputs[i]@)->Some_0@);
    let own = raws(exponentials(f, inputs));
    assert(own =~= es);
    if chip.computes(inputs, outs) {
        assert forall|i: int| 0 <= i < inputs.len() implies exists|j: int|
            0 <= j < f.len() && (#[trigger] f[j]).0@ == (#[trigger] inputs[i])@ by {
            assert(value_at(f, inputs[i]@) is Some);
            lemma_value_at(f, inputs[i]@);
        }
    }
    if chip.fails_with(inputs, e) {
        match e {
            SoftmaxError::Lookup(LookupError::InputNotInDomain(x)) => {
                lemma_value_at(f, x@);
            },
            SoftmaxError::Div(d) => {
                let i = choose|i: int| #[trigger] fails_at(own, total(own), d, i);
                assert(es[i] == own[i]);
            },
            _ => {},
        }
    }
}

/// The partial sums of a dot product are in range where those of its first pairs all are.
pub proof fn lemma_products_fit(a: Seq<I18>, b: Seq<I18>)
    requires
        a.len() == b.len(),
    ensures
        products_fit(a, b) <==> forall|n: int|
            0 <= n <= a.len() ==> -0x8000_0000_0000_0000_0000_0000_0000_0000int <= total(
                #[trigger] products(a.take(n), b.take(n)),
            ) < 0x8000_0000_0000_0000_0000_0000_0000_0000int,
{
    assert forall|n: int| 0 <= n <= a.len() implies #[trigger] products(a.take(n), b.take(n))
        == products(a, b).take(n) by {
        assert(products(a.take(n), b.take(n)) =~= products(a, b).take(n));
    }
    if products_fit(a, b) {
        assert forall|n: int| 0 <= n <= a.len() implies
            -0x8000_0000_0000_0000_0000_0000_0000_0000int <= total(
            #[trigger] products(a.take(n), b.take(n)),
        ) < 0x8000_0000_0000_0000_0000_0000_0000_0000int by {
            assert(is_i128(total(products(a, b).take(n))));
        }
    } else {
        let n = choose|n: int|
            0 <= n <= a.len() && !is_i128(total(#[trigger] products(a, b).take(n)));
        assert(products(a.take(n), b.take(n)) == products(a, b).take(n));
    }
}

/// A dot product that is out of range names its sum, unless a sum of its first products was out
/// of 128 bits already: that has one text, whatever the numbers.
pub proof fn lemma_dot_overflow_message(a: Seq<I18>, b: Seq<I18>, n: int)
    requires
        a.len() == b.len(),
        0 <= n <= a.len(),
    ensures
        !(-0x8000_0000_0000_0000_0000_0000_0000_0000int <= total(products(a.take(n), b.take(n)))
            < 0x8000_0000_0000_0000_0000_0000_0000_0000int) ==> dot_overflow_text(a, b)
            == "dot product raw accumulation overflowed i128"@,
        (forall|i: int|
            0 <= i <= a.len() ==> -0x8000_0000_0000_0000_0000_0000_0000_0000int <= total(
                #[trigger] products(a.take(i), b.take(i)),
            ) < 0x8000_0000_0000_0000_0000_0000_0000_0000int) ==> dot_overflow_text(a, b)
            == requantize_raw_text(total(products(a, b))),
{
    lemma_products_fit(a, b);
}

} // verus!
