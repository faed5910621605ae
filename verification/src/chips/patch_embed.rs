//! Projection of a patch through a weight matrix, one dot product for each output dimension.
use vstd::prelude::*;
use vstd::string::*;

use crate::chips::dot_general::{
    dot, dot_overflow_text, dot_values, products_fit, DotProductChip, DotProductConfig, DotProductError,
};
use crate::chips::lookup_range_check::{byte_table, LookupRangeCheckChip};
use crate::fixed_point::{is_i64, I18};
use crate::layout::Layouter;
use crate::plonk::{Assignment, Column, ConstraintSystem, Setup};
use crate::text::{decimal, unsigned_text};

verus! {

#[derive(Debug)]
pub enum PatchEmbedError {
    /// The patch does not have the configured length.
    PatchLengthMismatch { expected: usize, got: usize },
    /// There are not as many weight columns as output dimensions.
    WeightCountMismatch { expected: usize, got: usize },
    /// A weight column does not have the patch's length.
    WeightLengthMismatch { dim: usize, expected: usize, got: usize },
    /// The dot product of a dimension failed.
    DotProduct { dim: usize, source: DotProductError },
}

impl PatchEmbedError {
    pub open spec fn text(self) -> Seq<char> {
        match self {
            PatchEmbedError::PatchLengthMismatch { expected, got } => {
                "patch embed expects a patch of length "@ + decimal(expected as int) + ", got "@
                    + decimal(got as int)
            },
            PatchEmbedError::WeightCountMismatch { expected, got } => "patch embed expects "@
                + decimal(expected as int) + " weight columns (embed_dim), got "@ + decimal(
                got as int,
            ),
            PatchEmbedError::WeightLengthMismatch { dim, expected, got } => {
                "patch embed weight column "@ + decimal(dim as int) + " expects length "@ + decimal(
                    expected as int,
                ) + ", got "@ + decimal(got as int)
            },
            PatchEmbedError::DotProduct { dim, source } => "patch embed dot product for dim "@
                + decimal(dim as int) + " failed: "@ + source.text(),
        }
    }

    /// The text of the error.
    pub fn message(&self) -> (r: String)
        ensures
            r@ == self.text(),
    {
        match self {
            PatchEmbedError::PatchLengthMismatch { expected, got } => {
                let mut r = String::from_str("patch embed expects a patch of length ");
                r.append(unsigned_text(*expected as u128).as_str());
                r.append(", got ");
                r.append(unsigned_text(*got as u128).as_str());
                r
            },
            PatchEmbedError::WeightCountMismatch { expected, got } => {
                let mut r = String::from_str("patch embed expects ");
                r.append(unsigned_text(*expected as u128).as_str());
                r.append(" weight columns (embed_dim), got ");
                r.append(unsigned_text(*got as u128).as_str());
                r
            },
            PatchEmbedError::WeightLengthMismatch { dim, expected, got } => {
                let mut r = String::from_str("patch embed weight column ");
                r.append(unsigned_text(*dim as u128).as_str());
                r.append(" expects length ");
                r.append(unsigned_text(*expected as u128).as_str());
                r.append(", got ");
                r.append(unsigned_text(*got as u128).as_str());
                r
            },
            PatchEmbedError::DotProduct { dim, source } => {
                let mut r = String::from_str("patch embed dot product for dim ");
                r.append(unsigned_text(*dim as u128).as_str());
                r.append(" failed: ");
                r.append(source.message().as_str());
                r
            },
        }
    }
}

#[derive(Clone, Copy, Debug)]
pub struct PatchEmbedConfig {
    pub dot: DotProductConfig,
    pub patch_len: usize,
    pub embed_dim: usize,
}

impl PatchEmbedConfig {
    pub open spec fn wf(self) -> bool {
        self.dot.wf() && self.dot.k == self.patch_len && self.embed_dim > 0
    }
}

/// The dot product of a patch with a weight column is in range.
pub open spec fn dim_fits(patch: Seq<I18>, column: Seq<I18>) -> bool {
    products_fit(patch, column) && is_i64(dot(patch, column))
}

pub struct PatchEmbedChip {
    pub config: PatchEmbedConfig,
}

/// A copy of a vector of numbers.
pub(crate) fn copied(v: &Vec<I18>) -> (r: Vec<I18>)
    ensures
        r@ == v@,
{
    let mut r: Vec<I18> = Vec::new();
    let mut i: usize = 0;
    while i < v.len()
        invariant
            i <= v@.len(),
            r@ == v@.take(i as int),
        decreases v@.len() - i,
    {
        r.push(v[i]);
        i += 1;
        assert(r@ =~= v@.take(i as int));
    }
    assert(v@.take(i as int) =~= v@);
    r
}

impl PatchEmbedChip {
    /// `patch_len` is the length of a patch, `embed_dim` the count of output dimensions.
    pub fn configure(
        meta: &mut ConstraintSystem,
        a: Column,
        b: Column,
        accumulator: Column,
        q: Column,
        r: Column,
        slack: Column,
        bits: Column,
        patch_len: usize,
        embed_dim: usize,
    ) -> (config: PatchEmbedConfig)
        requires
            patch_len > 0,
            embed_dim > 0,
            old(meta).advice + 2 <= usize::MAX,
            old(meta).tables + 2 <= usize::MAX,
        ensures
            config.wf(),
            config.patch_len == patch_len && config.embed_dim == embed_dim,
            config.dot.a == a && config.dot.b == b && config.dot.accumulator == accumulator
                && config.dot.q == q && config.dot.r == r && config.dot.slack == slack
                && config.dot.range_a.limbs == bits,
            config.dot.a_shift.index == old(meta).advice && config.dot.b_shift.index == old(meta).advice
                + 1,
            final(meta).advice == old(meta).advice + 2,
            final(meta).tables == old(meta).tables + 2,
            final(meta).fixed == old(meta).fixed,
            final(meta).instance == old(meta).instance,
            final(meta).constants@ == old(meta).constants@,
            final(meta).rules@.len() == old(meta).rules@.len() + 15,
            final(meta).extends(*old(meta)),
            forall|setup: Setup|
                setup.cs.extends(*final(meta)) ==> #[trigger] config.dot.rules(setup),
            forall|setup: Setup|
                #![trigger setup.cs.extends(*final(meta))]
                setup.cs.extends(*final(meta)) && config.dot.loaded(setup)
                    ==> setup.rests_between(*old(meta), *final(meta)),
    {
        let dot = DotProductChip::configure(
            meta,
            a,
            b,
            accumulator,
            q,
            r,
            slack,
            bits,
            patch_len,
        );
        PatchEmbedConfig { dot, patch_len, embed_dim }
    }

    pub fn construct(config: PatchEmbedConfig) -> (chip: Self)
        ensures
            chip.config == config,
    {
        PatchEmbedChip { config }
    }

    /// Loads the byte tables of the operand checks. Called once in a synthesis.
    pub fn load_range_table(&self, layouter: &mut Layouter)
        requires
            self.config.wf(),
            (old(layouter).tables())(self.config.dot.range_a.table.0 as int).len() == 0,
            (old(layouter).tables())(self.config.dot.range_b.table.0 as int).len() == 0,
        ensures
            final(layouter).only_loads(*old(layouter)),
            (final(layouter).tables())(self.config.dot.range_a.table.0 as int) == byte_table(),
            (final(layouter).tables())(self.config.dot.range_b.table.0 as int) == byte_table(),
            forall|t: int|
                t != self.config.dot.range_a.table.0 && t != self.config.dot.range_b.table.0
                    ==> #[trigger] (final(layouter).tables())(t) == (old(layouter).tables())(t),
    {
        DotProductChip::construct(self.config.dot).load_range_table(layouter);
    }

    /// Projects `patch` through `weights`, whose `j`-th column belongs to output dimension `j`.
    /// Returns the outputs with the regions of their dot products.
    pub fn assign_regions(
        &self,
        layouter: &mut Layouter,
        patch: &Vec<I18>,
        weights: &Vec<Vec<I18>>,
    ) -> (res: Result<(Vec<I18>, Vec<usize>), PatchEmbedError>)
        requires
            self.config.wf(),
        ensures
            final(layouter).grows(*old(layouter)),
            match res {
                Ok((outs, regions)) => {
                    &&& self.shapes_fit(patch@, weights@)
                    &&& outs@.len() == self.config.embed_dim
                    &&& regions@.len() == self.config.embed_dim
                    &&& forall|d: int|
                        0 <= d < weights@.len() ==> dim_fits(patch@, (#[trigger] weights@[d])@)
                    &&& forall|d: int|
                        0 <= d < outs@.len() ==> (#[trigger] outs@[d])@ == dot(
                            patch@,
                            weights@[d]@,
                        )
                    &&& self.holds_values(*final(layouter), regions@, patch@, weights@, outs@)
                    &&& self.sound(*final(layouter), regions@)
                    &&& forall|setup: Setup|
                        self.config.dot.ok(setup) && self.config.dot.distinct() && old(
                            layouter,
                        ).honest(setup) ==> #[trigger] final(layouter).honest(setup)
                },
                Err(e) => self.fails_with(patch@, weights@, e),
            },
    {
        let cfg = self.config;
        let n: usize = cfg.patch_len;
        if patch.len() != n {
            return Err(PatchEmbedError::PatchLengthMismatch { expected: n, got: patch.len() });
        }
        if weights.len() != cfg.embed_dim {
            return Err(
                PatchEmbedError::WeightCountMismatch {
                    expected: cfg.embed_dim,
                    got: weights.len(),
                },
            );
        }
        let mut d: usize = 0;
        while d < weights.len()
            invariant
                d <= weights@.len(),
                cfg == self.config,
                n == cfg.patch_len,
                patch@.len() == n,
                weights@.len() == cfg.embed_dim,
                layouter.grows(*old(layouter)),
                forall|j: int| 0 <= j < d ==> (#[trigger] weights@[j])@.len() == n,
            decreases weights@.len() - d,
        {
            if weights[d].len() != n {
                return Err(
                    PatchEmbedError::WeightLengthMismatch {
                        dim: d,
                        expected: n,
                        got: weights[d].len(),
                    },
                );
            }
            d += 1;
        }
        let ghost base = *layouter;
        let mut outs: Vec<I18> = Vec::new();
        let mut regions: Vec<usize> = Vec::new();
        let mut d: usize = 0;
        while d < weights.len()
            invariant
                d <= weights@.len(),
                cfg == self.config,
                cfg.wf(),
                n == cfg.patch_len,
                base.grows(*old(layouter)),
                self.shapes_fit(patch@, weights@),
                layouter.grows(base),
                outs@.len() == d,
                regions@.len() == d,
                forall|j: int| 0 <= j < d ==> dim_fits(patch@, (#[trigger] weights@[j])@),
                forall|j: int|
                    0 <= j < d ==> (#[trigger] outs@[j])@ == dot(patch@, weights@[j]@),
                self.holds_values(*layouter, regions@, patch@, weights@, outs@),
                self.sound(*layouter, regions@),
                forall|setup: Setup|
                    cfg.dot.ok(setup) && cfg.dot.distinct() && base.honest(setup)
                        ==> #[trigger] layouter.honest(setup),
            decreases weights@.len() - d,
        {
            let ghost before = *layouter;
            let region: usize = layouter.ops.len();
            assert(weights@[d as int]@.len() == n);
            let out: I18 = match DotProductChip::construct(cfg.dot).assign(
                layouter,
                copied(patch),
                copied(&weights[d]),
            ) {
                Ok(q) => q,
                Err(e) => {
                    return Err(PatchEmbedError::DotProduct { dim: d, source: e });
                },
            };
            let ghost (po, pr) = (outs@, regions@);
            outs.push(out);
            regions.push(region);
            proof {
                assert(self.holds_values(*layouter, regions@, patch@, weights@, outs@)) by {
                    assert forall|env: Assignment, j: int|
                        #![trigger layouter.agrees(env), regions@[j]]
                        layouter.agrees(env) && 0 <= j < d + 1 implies dot_values(
                        cfg.dot,
                        env,
                        regions@[j] as int,
                        patch@,
                        weights@[j]@,
                        cfg.dot.k as int,
                    ) && env.at(regions@[j] as int, cfg.dot.q, cfg.dot.k - 1) == outs@[j]@
                        + crate::field_convert::SIGNED_SHIFT by {
                        assert(before.agrees(env));
                        if j < d {
                            assert(regions@[j] == pr[j] && outs@[j] == po[j]);
                        }
                    }
                }
                assert(self.sound(*layouter, regions@)) by {
                    assert forall|setup: Setup, env: Assignment, j: int|
                        #![trigger layouter.sat(setup, env), regions@[j]]
                        cfg.dot.ok(setup) && layouter.sat(setup, env) && 0 <= j < d
                            + 1 implies cfg.dot.operands_fit(env, regions@[j] as int)
                        && cfg.dot.computes(env, regions@[j] as int) by {
                        assert(before.sat(setup, env));
                        if j < d {
                            assert(regions@[j] == pr[j]);
                        }
                    }
                }
                assert forall|setup: Setup|
                    cfg.dot.ok(setup) && cfg.dot.distinct() && base.honest(
                        setup,
                    ) implies #[trigger] layouter.honest(setup) by {
                    assert(before.honest(setup));
                }
            }
            d += 1;
        }
        Ok((outs, regions))
    }

    /// Patch and weights have the configured shapes.
    pub open spec fn shapes_fit(self, patch: Seq<I18>, weights: Seq<Vec<I18>>) -> bool {
        &&& patch.len() == self.config.patch_len
        &&& weights.len() == self.config.embed_dim
        &&& forall|j: int|
            0 <= j < weights.len() ==> (#[trigger] weights[j])@.len() == self.config.patch_len
    }

    /// The error of a projection: the patch's length, the count of weight columns, the first
    /// column of a wrong length, or the first dot product out of range, in this order.
    pub open spec fn fails_with(
        self,
        patch: Seq<I18>,
        weights: Seq<Vec<I18>>,
        e: PatchEmbedError,
    ) -> bool {
        let n = self.config.patch_len;
        match e {
            PatchEmbedError::PatchLengthMismatch { expected, got } => patch.len() != n && expected
                == n && got == patch.len(),
            PatchEmbedError::WeightCountMismatch { expected, got } => patch.len() == n
                && weights.len() != self.config.embed_dim && expected == self.config.embed_dim
                && got == weights.len(),
            PatchEmbedError::WeightLengthMismatch { dim, expected, got } => {
                &&& patch.len() == n && weights.len() == self.config.embed_dim
                &&& dim < weights.len() && weights[dim as int]@.len() != n
                &&& forall|j: int| 0 <= j < dim ==> (#[trigger] weights[j])@.len() == n
                &&& expected == n && got == weights[dim as int]@.len()
            },
            PatchEmbedError::DotProduct { dim, source } => {
                &&& self.shapes_fit(patch, weights)
                &&& dim < weights.len() && !dim_fits(patch, weights[dim as int]@)
                &&& forall|j: int|
                    0 <= j < dim ==> dim_fits(patch, (#[trigger] weights[j])@)
                &&& source matches DotProductError::Overflow(t) && t.0@ == dot_overflow_text(
                    patch,
                    weights[dim as int]@,
                )
            },
        }
    }

    /// The regions hold the dot products' values.
    pub open spec fn holds_values(
        self,
        l: Layouter,
        regions: Seq<usize>,
        patch: Seq<I18>,
        weights: Seq<Vec<I18>>,
        outs: Seq<I18>,
    ) -> bool {
        forall|env: Assignment, j: int|
            #![trigger l.agrees(env), regions[j]]
            l.agrees(env) && 0 <= j < regions.len() ==> dot_values(
                self.config.dot,
                env,
                regions[j] as int,
                patch,
                weights[j]@,
                self.config.dot.k as int,
            ) && env.at(regions[j] as int, self.config.dot.q, self.config.dot.k - 1) == outs[j]@
                + crate::field_convert::SIGNED_SHIFT
    }

    /// Whatever satisfies the layout has, in every region, the dot product of 64-bit operands.
    pub open spec fn sound(self, l: Layouter, regions: Seq<usize>) -> bool {
        forall|setup: Setup, env: Assignment, j: int|
            #![trigger l.sat(setup, env), regions[j]]
            self.config.dot.ok(setup) && l.sat(setup, env) && 0 <= j < regions.len()
                ==> self.config.dot.operands_fit(env, regions[j] as int)
                && self.config.dot.computes(env, regions[j] as int)
    }

    /// What an assignment leaves of the tables: the chip's own hold the bytes unless they were
    /// loaded before, and no other is touched.
    pub open spec fn tables_after(self, before: Layouter, after: Layouter) -> bool {
        forall|t: int| #[trigger]
            (after.tables())(t) == if (t == self.config.dot.range_a.table.0 || t
                == self.config.dot.range_b.table.0) && (before.tables())(t).len() == 0 {
                byte_table()
            } else {
                (before.tables())(t)
            }
    }

    /// Projects `patch` through `weights` and returns the outputs. Loads the byte tables of the
    /// operand checks where they are not loaded yet.
    pub fn assign(&self, layouter: &mut Layouter, patch: &Vec<I18>, weights: &Vec<Vec<I18>>) -> (res:
        Result<Vec<I18>, PatchEmbedError>)
        requires
            self.config.wf(),
        ensures
            final(layouter).continues(*old(layouter)),
            match res {
                Ok(outs) => {
                    &&& self.shapes_fit(patch@, weights@)
                    &&& outs@.len() == self.config.embed_dim
                    &&& forall|d: int|
                        0 <= d < weights@.len() ==> dim_fits(patch@, (#[trigger] weights@[d])@)
                    &&& forall|d: int|
                        0 <= d < outs@.len() ==> (#[trigger] outs@[d])@ == dot(
                            patch@,
                            weights@[d]@,
                        )
                    &&& self.tables_after(*old(layouter), *final(layouter))
                    &&& exists|regions: Seq<usize>|
                        regions.len() == outs@.len() && self.holds_values(
                            *final(layouter),
                            regions,
                            patch@,
                            weights@,
                            outs@,
                        ) && #[trigger] self.sound(*final(layouter), regions)
                    &&& forall|setup: Setup|
                        self.config.dot.ok(setup) && self.config.dot.distinct() && old(
                            layouter,
                        ).honest(setup) ==> #[trigger] final(layouter).honest(setup)
                },
                Err(e) => final(layouter).grows(*old(layouter)) && self.fails_with(
                    patch@,
                    weights@,
                    e,
                ),
            },
    {
        match self.assign_regions(layouter, patch, weights) {
            Ok((outs, regions)) => {
                let ghost laid = *layouter;
                LookupRangeCheckChip::construct(self.config.dot.range_a).ensure_table(layouter);
                LookupRangeCheckChip::construct(self.config.dot.range_b).ensure_table(layouter);
                proof {
                    let l = *layouter;
                    assert(l.only_loads(laid));
                    assert(self.sound(l, regions@));
                    assert(self.holds_values(l, regions@, patch@, weights@, outs@));
                    assert forall|setup: Setup| laid.honest(setup) implies #[trigger] l.honest(
                        setup,
                    ) by {}
                    assert forall|setup: Setup|
                        self.config.dot.ok(setup) && self.config.dot.distinct() && old(
                            layouter,
                        ).honest(setup) implies #[trigger] l.honest(setup) by {
                        assert(laid.honest(setup));
                    }
                }
                Ok(outs)
            },
            Err(e) => Err(e),
        }
    }
}

} // verus!
