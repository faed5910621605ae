//! GELU activations by lookup: the circuit proves that the output is the table's value at the
//! input. How well the table approximates the function is up to whoever computes it.
use vstd::prelude::*;

use crate::chips::lookup::{
    input_rows, is_function_row, output_rows, value_at, LookupChip, LookupConfig, LookupError,
};
use crate::field::{centered, modulus};
use crate::fixed_point::I18;
use crate::layout::Layouter;
use crate::plonk::{Assignment, Column, ConstraintSystem, Selector, Setup};

verus! {

#[derive(Clone, Copy, Debug)]
pub struct GeluConfig {
    pub lookup: LookupConfig,
}

impl GeluConfig {
    /// The column of the inputs.
    pub fn input_column(&self) -> (c: Column)
        ensures
            c == self.lookup.input,
    {
        self.lookup.input
    }

    /// The column of the outputs.
    pub fn output_column(&self) -> (c: Column)
        ensures
            c == self.lookup.output,
    {
        self.lookup.output
    }

    /// The selector that switches the lookup on.
    pub fn selector(&self) -> (s: Selector)
        ensures
            s == self.lookup.selector,
    {
        self.lookup.selector
    }
}

pub struct GeluChip {
    pub inner: LookupChip,
}

impl GeluChip {
    pub fn configure(meta: &mut ConstraintSystem, input: Column, output: Column) -> (config:
        GeluConfig)
        requires
            old(meta).tables + 2 <= usize::MAX,
        ensures
            config.lookup.input == input && config.lookup.output == output,
            config.lookup.wf(),
            config.lookup.table_input.0 == old(meta).tables,
            config.lookup.table_output.0 == old(meta).tables + 1,
            final(meta).rules@.len() == old(meta).rules@.len() + 1,
            final(meta).advice == old(meta).advice,
            final(meta).fixed == old(meta).fixed,
            final(meta).instance == old(meta).instance,
            final(meta).tables == old(meta).tables + 2,
            final(meta).constants@ == old(meta).constants@,
            final(meta).extends(*old(meta)),
            forall|setup: Setup|
                setup.cs.extends(*final(meta)) ==> #[trigger] config.lookup.rules(setup),
            forall|setup: Setup, domain: Seq<(I18, I18)>|
                #![trigger setup.cs.extends(*final(meta)), config.lookup.loaded(setup, domain)]
                setup.cs.extends(*final(meta)) && config.lookup.loaded(setup, domain)
                    ==> setup.rests_between(*old(meta), *final(meta)),
    {
        GeluConfig { lookup: LookupChip::configure(meta, input, output) }
    }

    /// A chip for the table that takes each `domain[i]` to `values[i]`.
    pub fn construct(config: GeluConfig, domain: Vec<I18>, values: Vec<I18>) -> (chip: Self)
        requires
            domain@.len() == values@.len(),
        ensures
            chip.inner.config == config.lookup,
            chip.inner.domain@.len() == domain@.len(),
            forall|i: int|
                0 <= i < domain@.len() ==> #[trigger] chip.inner.domain@[i] == (
                    domain@[i],
                    values@[i],
                ),
    {
        GeluChip { inner: LookupChip::construct(config.lookup, domain, values) }
    }

    /// Loads the table. Called once in a synthesis.
    pub fn load_table(&self, layouter: &mut Layouter)
        requires
            self.inner.config.wf(),
            (old(layouter).tables())(self.inner.config.table_input.0 as int).len() == 0,
            (old(layouter).tables())(self.inner.config.table_output.0 as int).len() == 0,
        ensures
            final(layouter).only_loads(*old(layouter)),
            (final(layouter).tables())(self.inner.config.table_input.0 as int) == input_rows(
                self.inner.domain@,
            ),
            (final(layouter).tables())(self.inner.config.table_output.0 as int) == output_rows(
                self.inner.domain@,
            ),
            forall|t: int|
                t != self.inner.config.table_input.0 && t != self.inner.config.table_output.0
                    ==> #[trigger] (final(layouter).tables())(t) == (old(layouter).tables())(t),
    {
        self.inner.load_table(layouter);
    }

    /// Witnesses an input with its table value in a looked-up row and returns the value.
    pub fn assign(&self, layouter: &mut Layouter, input: I18) -> (res: Result<I18, LookupError>)
        ensures
            match value_at(self.inner.domain@, input@) {
                Some(y) => res matches Ok(v) && v == y && {
                    let r = old(layouter).next();
                    &&& final(layouter).grows(*old(layouter))
                    &&& forall|env: Assignment| #[trigger]
                        final(layouter).agrees(env) ==> env.at(r, self.inner.config.input, 0)
                            == input@ % modulus() && env.at(r, self.inner.config.output, 0) == y@
                            % modulus()
                    &&& forall|setup: Setup, env: Assignment|
                        self.inner.ok(setup) && #[trigger] final(layouter).sat(setup, env)
                            ==> is_function_row(
                            self.inner.domain@,
                            centered(env.at(r, self.inner.config.input, 0)),
                            centered(env.at(r, self.inner.config.output, 0)),
                        )
                    &&& forall|setup: Setup|
                        self.inner.ok(setup) && self.inner.config.input
                            != self.inner.config.output && old(layouter).honest(setup)
                            ==> #[trigger] final(layouter).honest(setup)
                },
                None => *final(layouter) == *old(layouter) && (res matches Err(
                    LookupError::InputNotInDomain(x),
                ) && x == input),
            },
    {
        match self.inner.assign(layouter, input) {
            Ok((value, _)) => Ok(value),
            Err(e) => Err(e),
        }
    }
}

} // verus!
