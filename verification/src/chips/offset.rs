//! A constant in a cell: a row whose only cell is fixed to a number, shifted.
use vstd::prelude::*;

use crate::field::modulus;
use crate::field_convert::{i128_to_fr, shifted_i64_witness, SIGNED_SHIFT};
use crate::fixed_point::{lemma_i18_range, I18};
use crate::layout::{cell_at, AssignedCell, Layouter, Mark};
use crate::plonk::{
    group_extends, lemma_at_range, Assignment, Column, ConstraintSystem, Expression, Selector, Setup,
};

verus! {

#[derive(Clone, Copy, Debug)]
pub struct OffsetConfig {
    pub column: Column,
    pub selector: Selector,
    /// The number, which is part of the constraint.
    pub value: I18,
}

impl OffsetConfig {
    pub open spec fn ok(self, setup: Setup) -> bool {
        &&& forall|env: Assignment, r: int, o: int| #[trigger]
            setup.holds(self.selector, env, r, o) <==> (env.at(r, self.column, o) - (self.value@
                + SIGNED_SHIFT)) % modulus() == 0
        &&& setup.cs.linked(self.column)
    }

    /// The layout after the constant.
    pub closed spec fn trace(self, t: Seq<Mark>) -> Seq<Mark> {
        t.push(Mark::Region).push(
            Mark::Enable { region: t.len() as usize, selector: self.selector, offset: 0 },
        ).push(Mark::Advice { cell: cell_at(t.len(), self.column, 0) })
    }
}

/// Configures a constant in a column.
pub fn configure_offset(meta: &mut ConstraintSystem, column: Column, value: I18) -> (config:
    OffsetConfig)
    ensures
        config == (OffsetConfig {
            column,
            selector: Selector(old(meta).rules@.len() as usize),
            value,
        }),
        final(meta).same_columns(*old(meta)),
        final(meta).rules@.len() == old(meta).rules@.len() + 1,
        final(meta).extends(*old(meta)),
        forall|setup: Setup| setup.cs.extends(*final(meta)) ==> #[trigger] config.ok(setup),
        forall|setup: Setup| #[trigger]
            setup.cs.extends(*final(meta)) ==> setup.rests_between(*old(meta), *final(meta)),
{
    proof {
        lemma_i18_range(value);
    }
    meta.enable_equality(column);
    let shifted = Expression::constant(i128_to_fr(value.raw() as i128 + SIGNED_SHIFT));
    let selector = meta.gate(Expression::cell(column).minus(shifted));
    let config = OffsetConfig { column, selector, value };
    proof {
        broadcast use group_extends;

        assert forall|setup: Setup| setup.cs.extends(*meta) implies #[trigger] config.ok(setup) by {}
    }
    config
}

/// Lays the constant out in a row of its own.
pub fn assign_offset(cfg: &OffsetConfig, layouter: &mut Layouter) -> (c: AssignedCell)
    ensures
        final(layouter).grows(*old(layouter)),
        final(layouter).trace() == cfg.trace(old(layouter).trace()),
        c.is(old(layouter).next(), cfg.column, 0, cfg.value@ + SIGNED_SHIFT),
        final(layouter).has(c),
        forall|setup: Setup, env: Assignment|
            cfg.ok(setup) && #[trigger] final(layouter).sat(setup, env) ==> env.cell(c.cell)
                == cfg.value@ + SIGNED_SHIFT,
        forall|setup: Setup|
            cfg.ok(setup) && old(layouter).honest(setup) ==> #[trigger] final(layouter).honest(
                setup,
            ),
{
    let ghost base = *layouter;
    let (shifted, _) = shifted_i64_witness(cfg.value.raw());
    let region: usize = layouter.region();
    layouter.enable(region, cfg.selector, 0);
    let c = layouter.assign_advice(region, cfg.column, 0, shifted);
    proof {
        broadcast use lemma_at_range;

        lemma_i18_range(cfg.value);
        let g = region as int;
        assert forall|setup: Setup, env: Assignment|
            cfg.ok(setup) && #[trigger] layouter.sat(setup, env) implies env.cell(c.cell)
            == cfg.value@ + SIGNED_SHIFT by {
            assert(setup.holds(cfg.selector, env, g, 0));
            assert(0 <= env.at(g, cfg.column, 0) < modulus());
        }
        assert forall|setup: Setup| cfg.ok(setup) && base.honest(
            setup,
        ) implies #[trigger] layouter.honest(setup) by {
            assert forall|env: Assignment| #[trigger] layouter.agrees(env) implies layouter.sat(
                setup,
                env,
            ) by {
                assert(base.agrees(env));
                assert(setup.holds(cfg.selector, env, g, 0));
            }
        }
    }
    c
}

} // verus!
