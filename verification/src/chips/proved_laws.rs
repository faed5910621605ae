//! What satisfied layouts say of the numbers in their cells.
use vstd::prelude::*;

use crate::chips::bridge::{bridged, hold_raw, hold_shifted};
use crate::chips::div::div_sound;
use crate::chips::dot_general::DotProductConfig;
use crate::chips::eltwise::{AddCells, MulCells};
use crate::chips::embed_lookup::{
    dimension, EmbedLookupChip, EmbedLookupConfig, EmbedLookupError,
};
use crate::chips::laws::{lemma_dimension_is_a_column, lemma_quotient_rounds_down};
use crate::chips::layer_norm::{
    scaled, shifted_raws, squares, LayerNormChip, LayerNormConfig,
};
use crate::chips::lookup::{is_function_row, lemma_value_at, single_valued, value_at};
use crate::chips::lookup_range_check::byte_table;
use crate::chips::patch_embed::{PatchEmbedChip, PatchEmbedError};
use crate::chips::reduce::{
    cell_raws, lemma_mean_rounds_down, mean_sound, raws, sum_sound, total, ReduceMeanConfig,
};
use crate::chips::rms_norm::{RmsNormChip, RmsNormConfig};
use crate::chips::softmax::{exponentials, softmax_of, softmax_proves, SoftmaxChip};
use crate::field::{centered, lemma_centered_of, modulus};
use crate::field_convert::{is_shifted, unshifted, SIGNED_SHIFT};
use crate::fixed_point::{
    i18, is_i64, lemma_i18, lemma_i18_range, lemma_rescale_rounds_down, rescaled, I18,
};
use crate::layout::{AssignedCell, Layouter};
use crate::plonk::{Assignment, Setup};

verus! {

/// A shifted cell stands for a 64-bit integer, two to the sixty-third below what it holds, and for
/// every such integer there is one.
pub proof fn lemma_shifted_cells(v: int)
    ensures
        is_shifted(v) <==> is_i64(unshifted(v)),
        unshifted(v) == v - 0x8000_0000_0000_0000,
        is_i64(v) ==> is_shifted(v + SIGNED_SHIFT) && unshifted(v + SIGNED_SHIFT) == v,
{
}

/// Bridged cells stand for the same 64-bit integer, where one of them stands for any.
pub proof fn lemma_bridged_cells(u: int, s: int)
    requires
        bridged(u, s),
        is_i64(centered(u)) || is_shifted(s),
    ensures
        is_i64(centered(u)),
        centered(u) == s - 0x8000_0000_0000_0000,
{
}

/// A proved division has a positive divisor, and where its numerator stands for a 64-bit integer
/// its quotient is the integer's, in units of ten to the eighteenth and rounded down.
pub proof fn lemma_proved_division(n: int, d: int, q: int)
    requires
        is_i64(n),
        div_sound(n % modulus(), d, q),
    ensures
        d > 0,
        is_i64(unshifted(q)),
        unshifted(q) * d <= n * 1_000_000_000_000_000_000 < (unshifted(q) + 1) * d,
{
    lemma_centered_of(n);
    lemma_quotient_rounds_down(n, d);
}

/// A proved sum of 64-bit integers is their sum, and in range.
pub proof fn lemma_proved_sum(env: Assignment, sum: AssignedCell, values: Seq<AssignedCell>)
    requires
        sum_sound(env, sum, values),
        forall|i: int|
            0 <= i < values.len() ==> is_i64(centered(env.cell((#[trigger] values[i]).cell))),
    ensures
        ({
            let s = centered(env.cell(sum.cell));
            is_i64(s) && s == total(
                Seq::new(values.len(), |i: int| centered(env.cell(values[i].cell))),
            )
        }),
{
    let vals = cell_raws(env, values);
    assert(vals =~= Seq::new(values.len(), |i: int| centered(env.cell(values[i].cell))));
    assert forall|i: int| 0 <= i < vals.len() implies is_i64(#[trigger] vals[i]) by {
        assert(is_i64(centered(env.cell(values[i].cell))));
    }
}

/// A proved mean of 64-bit integers is their sum times the reciprocal, in units of ten to the
/// eighteenth and rounded down.
pub proof fn lemma_proved_mean(
    config: ReduceMeanConfig,
    env: Assignment,
    mean: AssignedCell,
    values: Seq<AssignedCell>,
)
    requires
        mean_sound(config, env, mean, values),
        forall|i: int|
            0 <= i < values.len() ==> is_i64(centered(env.cell((#[trigger] values[i]).cell))),
    ensures
        ({
            let m = unshifted(env.cell(mean.cell));
            let sum = total(Seq::new(values.len(), |i: int| centered(env.cell(values[i].cell))));
            &&& is_i64(m)
            &&& m * 1_000_000_000_000_000_000 <= sum * config.reciprocal@ < (m + 1)
                * 1_000_000_000_000_000_000
        }),
{
    let vals = cell_raws(env, values);
    assert(vals =~= Seq::new(values.len(), |i: int| centered(env.cell(values[i].cell))));
    assert forall|i: int| 0 <= i < vals.len() implies is_i64(#[trigger] vals[i]) by {
        assert(is_i64(centered(env.cell(values[i].cell))));
    }
    lemma_mean_rounds_down(config, vals);
}

/// A proved dot product is the sum of the products of its operands, row by row, in units of ten to
/// the eighteenth and rounded down.
pub proof fn lemma_proved_dot(config: DotProductConfig, env: Assignment, r: int)
    requires
        config.computes(env, r),
    ensures
        ({
            let q = unshifted(env.at(r, config.q, config.k - 1));
            let sum = total(
                Seq::new(
                    config.k as nat,
                    |i: int| centered(env.at(r, config.a, i)) * centered(env.at(r, config.b, i)),
                ),
            );
            &&& is_i64(q)
            &&& q * 1_000_000_000_000_000_000 <= sum < (q + 1) * 1_000_000_000_000_000_000
        }),
{
    lemma_rescale_rounds_down(total(config.cell_products(env, r)));
    assert(config.cell_products(env, r) =~= Seq::new(
        config.k as nat,
        |i: int| centered(env.at(r, config.a, i)) * centered(env.at(r, config.b, i)),
    ));
}

/// A row that a dimension's lookup proves has the entry of the table at its index, where the index
/// is one of the table's.
pub proof fn lemma_proved_embedding(table: Seq<Vec<I18>>, dim: int, x: int, y: int)
    requires
        table.len() <= i64::MAX,
        0 <= x < table.len(),
        is_function_row(dimension(table, dim), x, y),
    ensures
        y == table[x]@[dim]@,
{
    let f = dimension(table, dim);
    let i = choose|i: int| 0 <= i < f.len() && (#[trigger] f[i]).0@ == x && f[i].1@ == y;
    lemma_dimension_is_a_column(table, dim, x);
    lemma_dimension_is_a_column(table, dim, i);
    assert(i18(i)@ == i) by {
        lemma_i18(i);
    }
}

/// A layer normalization that is proved is the one that is computed, where its table has one
/// output at a point.
pub proof fn lemma_proved_layer_norm(
    config: LayerNormConfig,
    domain: Seq<(I18, I18)>,
    xs: Seq<int>,
    outs: Seq<int>,
    v: I18,
)
    requires
        single_valued(domain),
        value_at(domain, config.variance(xs) + config.epsilon@) == Some(v),
        config.proves(domain, xs, outs),
    ensures
        outs == config.normalized(xs, v@),
{
    let point = config.variance(xs) + config.epsilon@;
    lemma_value_at(domain, point);
    let w = choose|w: int| #[trigger]
        is_function_row(domain, point, w) && outs == config.normalized(xs, w);
    assert(is_function_row(domain, point, v@));
}

/// A normalization by the root mean square that is proved is the one that is computed, where its
/// table has one output at a point.
pub proof fn lemma_proved_rms_norm(
    config: RmsNormConfig,
    domain: Seq<(I18, I18)>,
    xs: Seq<int>,
    ws: Seq<int>,
    outs: Seq<int>,
    v: I18,
)
    requires
        single_valued(domain),
        value_at(domain, config.mean_square(xs) + config.epsilon@) == Some(v),
        config.proves(domain, xs, ws, outs),
    ensures
        outs == config.normalized(xs, ws, v@),
{
    let point = config.mean_square(xs) + config.epsilon@;
    lemma_value_at(domain, point);
    let w = choose|w: int| #[trigger]
        is_function_row(domain, point, w) && outs == config.normalized(xs, ws, w);
    assert(is_function_row(domain, point, v@));
}

/// A softmax that is proved is the one that is computed, where its table has one output at a
/// point.
pub proof fn lemma_proved_softmax(
    chip: SoftmaxChip,
    inputs: Seq<I18>,
    outs: Seq<I18>,
    proved: Seq<int>,
)
    requires
        single_valued(chip.domain()),
        chip.computes(inputs, outs),
        softmax_proves(chip.domain(), raws(inputs), proved),
    ensures
        proved == raws(outs),
{
    let (f, xs) = (chip.domain(), raws(inputs));
    let es = choose|es: Seq<int>| #[trigger] softmax_of(f, xs, es, proved);
    let own = raws(exponentials(f, inputs));
    assert forall|i: int| 0 <= i < es.len() implies #[trigger] es[i] == own[i] by {
        assert(value_at(f, inputs[i]@) is Some);
        lemma_value_at(f, inputs[i]@);
        assert(is_function_row(f, xs[i], es[i]));
        assert(is_function_row(f, xs[i], own[i]));
    }
    assert(es =~= own);
    assert(proved =~= raws(outs));
}

/// An embedding table is refused for one reason, and not where its shape is right: its count of
/// rows, or the first row of a wrong length.
pub proof fn lemma_embed_shape_errors(
    config: EmbedLookupConfig,
    table: Seq<Vec<I18>>,
    e: EmbedLookupError,
)
    requires
        config.shape_error(table, e),
    ensures
        !config.shape_fits(table),
        (e matches EmbedLookupError::TableRowCountMismatch { expected, got } && expected
            == config.table_size && got == table.len() && expected != got) || (e matches
            EmbedLookupError::TableRowLengthMismatch { row, expected, got } && expected
            == config.embed_dim && row < table.len() && got == table[row as int]@.len() && expected
            != got && table.len() == config.table_size && forall|i: int|
            0 <= i < table.len() && (#[trigger] table[i])@.len() != expected ==> row <= i),
{
}

/// A projection is refused for the first thing that is wrong: the patch, the count of weight
/// columns, the first column of a wrong length, or the first dot product out of range.
pub proof fn lemma_patch_embed_errors(
    chip: PatchEmbedChip,
    patch: Seq<I18>,
    weights: Seq<Vec<I18>>,
    e: PatchEmbedError,
)
    requires
        chip.fails_with(patch, weights, e),
    ensures
        e is PatchLengthMismatch <==> patch.len() != chip.config.patch_len,
        e is WeightCountMismatch <==> patch.len() == chip.config.patch_len && weights.len()
            != chip.config.embed_dim,
        e matches PatchEmbedError::WeightLengthMismatch { dim, expected, got } ==> dim
            < weights.len() && got == weights[dim as int]@.len() && expected
            == chip.config.patch_len && got != expected && forall|j: int|
            0 <= j < weights.len() && (#[trigger] weights[j])@.len() != expected ==> dim <= j,
        e is DotProduct ==> chip.shapes_fit(patch, weights),
{
}

/// The table of bytes holds the integers from 0 to 255 and no others.
pub proof fn lemma_byte_table(v: int)
    ensures
        byte_table().contains(v) <==> 0 <= v < 256,
        byte_table().len() == 256,
{
    if 0 <= v < 256 {
        assert(byte_table()[v] == v);
    }
}

/// Cells that hold numbers have them in every assignment with the recorded values: unshifted ones
/// the number's field element, shifted ones the number plus two to the sixty-third.
pub proof fn lemma_held_numbers(
    l: Layouter,
    raw: Seq<AssignedCell>,
    shifted: Seq<AssignedCell>,
    xs: Seq<I18>,
    env: Assignment,
    i: int,
)
    requires
        l.agrees(env),
        0 <= i < xs.len(),
    ensures
        hold_raw(l, raw, xs) ==> raw.len() == xs.len() && centered(env.cell(raw[i].cell)) == xs[i]@,
        hold_shifted(l, shifted, xs) ==> shifted.len() == xs.len() && env.cell(shifted[i].cell)
            == xs[i]@ + 0x8000_0000_0000_0000,
{
    lemma_i18_range(xs[i]);
    lemma_centered_of(xs[i]@);
    if hold_raw(l, raw, xs) {
        assert(l.has(raw[i]));
    }
    if hold_shifted(l, shifted, xs) {
        assert(l.has(shifted[i]));
    }
}

/// The cells of a proved addition stand for 64-bit integers, the third for the sum of the others;
/// those of a proved multiplication likewise, the third for the product in units of ten to the
/// eighteenth, rounded down.
pub proof fn lemma_proved_rows(sum: AddCells, product: MulCells, env: Assignment)
    ensures
        sum.sound(env) ==> {
            let (a, b, c) = (
                unshifted(env.cell(sum.a.cell)),
                unshifted(env.cell(sum.b.cell)),
                unshifted(env.cell(sum.c.cell)),
            );
            is_i64(a) && is_i64(b) && is_i64(c) && c == a + b
        },
        product.sound(env) ==> {
            let (a, b) = (
                centered(env.cell(product.a.cell)),
                centered(env.cell(product.b.cell)),
            );
            let q = unshifted(env.cell(product.q.cell));
            &&& is_i64(a) && is_i64(b) && is_i64(q)
            &&& q * 1_000_000_000_000_000_000 <= a * b < (q + 1) * 1_000_000_000_000_000_000
        },
{
    lemma_rescale_rounds_down(
        centered(env.cell(product.a.cell)) * centered(env.cell(product.b.cell)),
    );
}

/// Whatever satisfies the layout of an embedding has, in every dimension whose index is one of the
/// table's, the entry of the row at that index.
pub proof fn lemma_embedding_cells(
    chip: EmbedLookupChip,
    l: Layouter,
    table: Seq<Vec<I18>>,
    cells: Seq<(AssignedCell, AssignedCell)>,
    setup: Setup,
    env: Assignment,
    d: int,
)
    requires
        chip.sound(l, table, cells),
        chip.config.ok(setup, table),
        l.sat(setup, env),
        0 <= d < cells.len(),
        table.len() <= i64::MAX,
        0 <= env.cell(cells[d].0.cell) < table.len(),
    ensures
        centered(env.cell(cells[d].1.cell)) == table[env.cell(cells[d].0.cell)]@[d]@,
{
    let x = env.cell(cells[d].0.cell);
    assert(centered(x) == x);
    assert(cells[d] == cells[d]);
    lemma_proved_embedding(table, d, x, centered(env.cell(cells[d].1.cell)));
}

/// The cells of an embedding hold the index and the row's entry in every dimension.
pub proof fn lemma_embedding_holds(
    chip: EmbedLookupChip,
    l: Layouter,
    index: usize,
    row: Seq<I18>,
    cells: Seq<(AssignedCell, AssignedCell)>,
    env: Assignment,
    d: int,
)
    requires
        chip.holds_row(l, index, row, cells),
        l.agrees(env),
        0 <= d < row.len(),
    ensures
        cells.len() == row.len(),
        env.cell(cells[d].0.cell) == index,
        centered(env.cell(cells[d].1.cell)) == row[d]@,
{
    lemma_i18_range(row[d]);
    lemma_centered_of(row[d]@);
    assert(l.has(cells[d].0) && l.has(cells[d].1));
}

/// Whatever satisfies the layout of a layer normalization has the normalized inputs in the output
/// cells, where its table has one output at a point.
pub proof fn lemma_layer_norm_cells(
    chip: LayerNormChip,
    l: Layouter,
    ins: Seq<AssignedCell>,
    outs: Seq<AssignedCell>,
    setup: Setup,
    env: Assignment,
    v: I18,
)
    requires
        chip.sound(l, ins, outs),
        chip.ok(setup),
        l.sat(setup, env),
        single_valued(chip.domain()),
        value_at(
            chip.domain(),
            chip.config.variance(cell_raws(env, ins)) + chip.config.epsilon@,
        ) == Some(v),
    ensures
        outs.len() == ins.len(),
        forall|i: int|
            0 <= i < outs.len() ==> unshifted(env.cell((#[trigger] outs[i]).cell))
                == chip.config.normalized(cell_raws(env, ins), v@)[i],
{
    let (xs, zs) = (cell_raws(env, ins), shifted_raws(env, outs));
    lemma_proved_layer_norm(chip.config, chip.domain(), xs, zs, v);
    assert(zs.len() == outs.len() && xs.len() == ins.len());
    assert forall|i: int| 0 <= i < outs.len() implies unshifted(
        env.cell((#[trigger] outs[i]).cell),
    ) == chip.config.normalized(xs, v@)[i] by {
        assert(zs[i] == unshifted(env.cell(outs[i].cell)));
    }
}

/// Whatever satisfies the layout of a normalization by the root mean square has the normalized and
/// weighted inputs in the output cells, where its table has one output at a point.
pub proof fn lemma_rms_norm_cells(
    chip: RmsNormChip,
    l: Layouter,
    ins: Seq<AssignedCell>,
    weights: Seq<AssignedCell>,
    outs: Seq<AssignedCell>,
    setup: Setup,
    env: Assignment,
    v: I18,
)
    requires
        chip.sound(l, ins, weights, outs),
        chip.ok(setup),
        l.sat(setup, env),
        single_valued(chip.domain()),
        value_at(
            chip.domain(),
            chip.config.mean_square(cell_raws(env, ins)) + chip.config.epsilon@,
        ) == Some(v),
    ensures
        outs.len() == ins.len(),
        forall|i: int|
            0 <= i < outs.len() ==> unshifted(env.cell((#[trigger] outs[i]).cell))
                == chip.config.normalized(cell_raws(env, ins), cell_raws(env, weights), v@)[i],
{
    let (xs, ws, zs) = (cell_raws(env, ins), cell_raws(env, weights), shifted_raws(env, outs));
    lemma_proved_rms_norm(chip.config, chip.domain(), xs, ws, zs, v);
    assert(zs.len() == outs.len() && xs.len() == ins.len());
    assert forall|i: int| 0 <= i < outs.len() implies unshifted(
        env.cell((#[trigger] outs[i]).cell),
    ) == chip.config.normalized(xs, ws, v@)[i] by {
        assert(zs[i] == unshifted(env.cell(outs[i].cell)));
    }
}

/// Whatever satisfies the layout of a softmax, with numbers in the input cells whose softmax is
/// computed, has that softmax in the output cells, where its table has one output at a point.
pub proof fn lemma_softmax_cells(
    chip: SoftmaxChip,
    l: Layouter,
    ins: Seq<AssignedCell>,
    outs: Seq<AssignedCell>,
    setup: Setup,
    env: Assignment,
    inputs: Seq<I18>,
    outputs: Seq<I18>,
)
    requires
        chip.sound(l, ins, outs),
        chip.ok(setup),
        l.sat(setup, env),
        single_valued(chip.domain()),
        ins.len() == inputs.len(),
        forall|i: int|
            0 <= i < ins.len() ==> centered(env.cell((#[trigger] ins[i]).cell)) == inputs[i]@,
        chip.computes(inputs, outputs),
    ensures
        outs.len() == outputs.len(),
        forall|i: int|
            0 <= i < outs.len() ==> unshifted(env.cell((#[trigger] outs[i]).cell))
                == outputs[i]@,
{
    let zs = shifted_raws(env, outs);
    assert forall|i: int| 0 <= i < ins.len() implies cell_raws(env, ins)[i] == raws(inputs)[i] by {
        assert(centered(env.cell(ins[i].cell)) == inputs[i]@);
    }
    assert(cell_raws(env, ins) =~= raws(inputs));
    lemma_proved_softmax(chip, inputs, outputs, zs);
    assert(zs.len() == outs.len());
    assert forall|i: int| 0 <= i < outs.len() implies unshifted(
        env.cell((#[trigger] outs[i]).cell),
    ) == outputs[i]@ by {
        assert(zs[i] == raws(outputs)[i]);
    }
}

/// Whatever satisfies the layout of a projection has, in every region, 64-bit operands and their
/// dot product, in units of ten to the eighteenth and rounded down.
pub proof fn lemma_projection_cells(
    chip: PatchEmbedChip,
    l: Layouter,
    regions: Seq<usize>,
    setup: Setup,
    env: Assignment,
    j: int,
    i: int,
)
    requires
        chip.sound(l, regions),
        chip.config.dot.ok(setup),
        l.sat(setup, env),
        0 <= j < regions.len(),
        0 <= i < chip.config.dot.k,
    ensures
        ({
            let (c, r) = (chip.config.dot, regions[j] as int);
            let q = unshifted(env.at(r, c.q, c.k - 1));
            let sum = total(
                Seq::new(
                    c.k as nat,
                    |i: int| centered(env.at(r, c.a, i)) * centered(env.at(r, c.b, i)),
                ),
            );
            &&& is_i64(centered(env.at(r, c.a, i))) && is_i64(centered(env.at(r, c.b, i)))
            &&& q * 1_000_000_000_000_000_000 <= sum < (q + 1) * 1_000_000_000_000_000_000
        }),
{
    assert(regions[j] == regions[j]);
    lemma_proved_dot(chip.config.dot, env, regions[j] as int);
    assert(chip.config.dot.operands_fit(env, regions[j] as int));
    assert(is_i64(centered(env.at(regions[j] as int, chip.config.dot.a, i))));
}

/// The regions of a projection hold the patch, the weights of a dimension and its output.
pub proof fn lemma_projection_holds(
    chip: PatchEmbedChip,
    l: Layouter,
    regions: Seq<usize>,
    patch: Seq<I18>,
    weights: Seq<Vec<I18>>,
    outs: Seq<I18>,
    env: Assignment,
    j: int,
    i: int,
)
    requires
        chip.holds_values(l, regions, patch, weights, outs),
        l.agrees(env),
        0 <= j < regions.len(),
        0 <= i < chip.config.dot.k,
    ensures
        ({
            let (c, r) = (chip.config.dot, regions[j] as int);
            &&& centered(env.at(r, c.a, i)) == patch[i]@
            &&& centered(env.at(r, c.b, i)) == weights[j]@[i]@
            &&& unshifted(env.at(r, c.q, c.k - 1)) == outs[j]@
        }),
{
    assert(regions[j] == regions[j]);
    lemma_i18_range(patch[i]);
    lemma_i18_range(weights[j]@[i]);
    lemma_centered_of(patch[i]@);
    lemma_centered_of(weights[j]@[i]@);
    let r = regions[j] as int;
    assert(env.at(r, chip.config.dot.a, i) == patch[i]@ % modulus());
    assert(env.at(r, chip.config.dot.b, i) == weights[j]@[i]@ % modulus());
}

/// A normalization by the root mean square stays in range exactly where every square, every
/// partial sum of squares, the mean square, the mean square plus epsilon, and, for the value that
/// the table gives there, every product by it and by the weight are 64-bit integers.
pub proof fn lemma_rms_norm_fits(
    config: RmsNormConfig,
    domain: Seq<(I18, I18)>,
    xs: Seq<int>,
    ws: Seq<int>,
)
    ensures
        config.fits(domain, xs, ws) <==> {
            &&& forall|i: int| 0 <= i < xs.len() ==> is_i64(rescaled(#[trigger] xs[i] * xs[i]))
            &&& forall|n: int|
                0 <= n <= xs.len() ==> is_i64(total(#[trigger] squares(xs).take(n)))
            &&& is_i64(config.mean_square(xs))
            &&& is_i64(config.mean_square(xs) + config.epsilon@)
            &&& value_at(domain, config.mean_square(xs) + config.epsilon@) matches Some(v)
                ==> forall|i: int|
                0 <= i < xs.len() ==> is_i64(rescaled(#[trigger] xs[i] * v@)) && is_i64(
                    rescaled(rescaled(xs[i] * v@) * ws[i]),
                )
        },
{
    let sq = squares(xs);
    if config.fits(domain, xs, ws) {
        assert forall|i: int| 0 <= i < xs.len() implies is_i64(
            rescaled(#[trigger] xs[i] * xs[i]),
        ) by {
            assert(is_i64(sq[i]));
        }
        if let Some(v) = value_at(domain, config.mean_square(xs) + config.epsilon@) {
            assert forall|i: int| 0 <= i < xs.len() implies is_i64(
                rescaled(#[trigger] xs[i] * v@),
            ) && is_i64(rescaled(rescaled(xs[i] * v@) * ws[i])) by {
                assert(is_i64(scaled(xs, v@)[i]));
                assert(is_i64(config.normalized(xs, ws, v@)[i]));
            }
        }
    }
}

/// A layer normalization stays in range exactly where every partial sum, the mean and its negation,
/// every deviation, every square and partial sum of squares, the variance, the variance plus
/// epsilon, and, for the value that the table gives there, every product by it are 64-bit
/// integers.
pub proof fn lemma_layer_norm_fits(config: LayerNormConfig, domain: Seq<(I18, I18)>, xs: Seq<int>)
    ensures
        config.fits(domain, xs) <==> {
            let m = config.mean(xs);
            &&& forall|n: int| 0 <= n <= xs.len() ==> is_i64(total(#[trigger] xs.take(n)))
            &&& is_i64(m) && is_i64(-m)
            &&& forall|i: int|
                0 <= i < xs.len() ==> is_i64(#[trigger] xs[i] - m) && is_i64(
                    rescaled((xs[i] - m) * (xs[i] - m)),
                )
            &&& forall|n: int|
                0 <= n <= xs.len() ==> is_i64(
                    total(#[trigger] squares(config.diffs(xs)).take(n)),
                )
            &&& is_i64(config.variance(xs))
            &&& is_i64(config.variance(xs) + config.epsilon@)
            &&& value_at(domain, config.variance(xs) + config.epsilon@) matches Some(v)
                ==> forall|i: int|
                0 <= i < xs.len() ==> is_i64(rescaled((#[trigger] xs[i] - m) * v@))
        },
{
    let m = config.mean(xs);
    let (ds, sq) = (config.diffs(xs), squares(config.diffs(xs)));
    if config.fits(domain, xs) {
        assert forall|i: int| 0 <= i < xs.len() implies is_i64(#[trigger] xs[i] - m) && is_i64(
            rescaled((xs[i] - m) * (xs[i] - m)),
        ) by {
            assert(is_i64(ds[i]));
            assert(is_i64(sq[i]));
        }
        if let Some(v) = value_at(domain, config.variance(xs) + config.epsilon@) {
            assert forall|i: int| 0 <= i < xs.len() implies is_i64(
                rescaled((#[trigger] xs[i] - m) * v@),
            ) by {
                assert(is_i64(config.normalized(xs, v@)[i]));
            }
        }
    }
}

} // verus!
