//! Softmax over a fixed count of numbers: exponentials by lookup, their sum, and a division for
//! each output.
//!
//! The exponentials' cells are linked into the sum and the divisions' numerators, and the sum's
//! cell into their divisors. Inputs must be exact points of the lookup's domain, and the sum of
//! the exponentials must stay in range.
use vstd::prelude::*;
use vstd::string::*;

use crate::chips::bridge::{
    all_in, all_linked, equal_cells, hold_raw, hold_shifted, lemma_hold, link_each,
};
use crate::chips::div::{
    div_sound, quotient, quotient_overflow_text, DivChip, DivConfig, DivError,
};
use crate::chips::layer_norm::shifted_raws;
use crate::chips::lookup::{
    assign_lookup_row, input_rows, is_function_row, lemma_value_at, output_rows, value_at, LookupChip,
    LookupConfig, LookupError,
};
use crate::chips::reduce::{
    cell_raws, raws, sum_sound, sums_fit, total, ReduceSumChip, ReduceSumConfig,
};
use crate::field::{centered, modulus};
use crate::field_convert::{shifted_i64_witness, SIGNED_SHIFT};
use crate::fixed_point::{is_i64, lemma_i18_range, I18};
use crate::layout::{AssignedCell, Cell, Layouter};
use crate::plonk::{
    group_extends, lemma_at_range, Assignment, Column, ConstraintSystem, Setup,
};
use crate::text::{decimal, unsigned_text};

verus! {

#[derive(Debug)]
pub enum SoftmaxError {
    /// The inputs do not have the configured count.
    InputCountMismatch { expected: usize, got: usize },
    /// An input is not a point of the exponential's domain.
    Lookup(LookupError),
    /// A division failed.
    Div(DivError),
    /// Synthesis failed.
    Circuit(String),
}

impl SoftmaxError {
    pub open spec fn text(self) -> Seq<char> {
        match self {
            SoftmaxError::InputCountMismatch { expected, got } => "softmax expects "@ + decimal(
                expected as int,
            ) + " inputs (K), got "@ + decimal(got as int),
            SoftmaxError::Lookup(e) => "softmax exp lookup failed: "@ + e.text(),
            SoftmaxError::Div(e) => "softmax division failed: "@ + e.text(),
            SoftmaxError::Circuit(e) => "softmax circuit error: "@ + e@,
        }
    }

    /// The text of the error.
    pub fn message(&self) -> (r: String)
        ensures
            r@ == self.text(),
    {
        match self {
            SoftmaxError::InputCountMismatch { expected, got } => {
                let mut r = String::from_str("softmax expects ");
                r.append(unsigned_text(*expected as u128).as_str());
                r.append(" inputs (K), got ");
                r.append(unsigned_text(*got as u128).as_str());
                r
            },
            SoftmaxError::Lookup(e) => {
                let mut r = String::from_str("softmax exp lookup failed: ");
                r.append(e.message().as_str());
                r
            },
            SoftmaxError::Div(e) => {
                let mut r = String::from_str("softmax division failed: ");
                r.append(e.message().as_str());
                r
            },
            SoftmaxError::Circuit(e) => {
                let mut r = String::from_str("softmax circuit error: ");
                r.append(e.as_str());
                r
            },
        }
    }
}

#[derive(Clone, Copy, Debug)]
pub struct SoftmaxConfig {
    pub lookup: LookupConfig,
    pub sum: ReduceSumConfig,
    pub div: DivConfig,
    pub k: usize,
}

impl SoftmaxConfig {
    pub open spec fn wf(self) -> bool {
        self.lookup.wf() && self.sum.wf() && self.sum.k == self.k && self.div.wf()
    }

    pub open spec fn distinct(self) -> bool {
        self.lookup.input != self.lookup.output && self.sum.distinct() && self.div.distinct()
    }

    pub open spec fn rules(self, setup: Setup) -> bool {
        self.lookup.rules(setup) && self.sum.ok(setup) && self.div.ok(setup)
    }
}

/// The exponentials that a table gives for inputs, all of which are points of its domain.
pub open spec fn exponentials(domain: Seq<(I18, I18)>, xs: Seq<I18>) -> Seq<I18> {
    Seq::new(xs.len(), |i: int| value_at(domain, xs[i]@)->0)
}

/// The first `n` inputs are points of the domain.
pub open spec fn in_domain_up_to(domain: Seq<(I18, I18)>, xs: Seq<I18>, n: int) -> bool {
    forall|i: int| 0 <= i < n ==> value_at(domain, (#[trigger] xs[i])@) is Some
}

/// The first `n` divisions by a positive sum are in range.
pub open spec fn divides_up_to(es: Seq<int>, n: int) -> bool {
    forall|i: int| 0 <= i < n ==> is_i64(quotient(#[trigger] es[i], total(es)))
}

/// What a satisfied layout proves of inputs and outputs: each output is the quotient of an
/// exponential that the table gives at its input by the positive sum of them all.
pub open spec fn softmax_proves(domain: Seq<(I18, I18)>, xs: Seq<int>, outs: Seq<int>) -> bool {
    exists|es: Seq<int>| #[trigger] softmax_of(domain, xs, es, outs)
}

pub open spec fn softmax_of(
    domain: Seq<(I18, I18)>,
    xs: Seq<int>,
    es: Seq<int>,
    outs: Seq<int>,
) -> bool {
    &&& es.len() == xs.len()
    &&& outs.len() == xs.len()
    &&& forall|i: int| 0 <= i < xs.len() ==> is_function_row(domain, #[trigger] xs[i], es[i])
    &&& total(es) > 0
    &&& forall|i: int|
        0 <= i < outs.len() ==> #[trigger] outs[i] == quotient(es[i], total(es))
}

/// The outputs with their shifted cells, and the cells of the inputs.
#[derive(Debug)]
pub struct SoftmaxOutput {
    pub outputs: Vec<I18>,
    pub output_cells: Vec<AssignedCell>,
    pub input_cells: Vec<AssignedCell>,
}

pub struct SoftmaxChip {
    pub config: SoftmaxConfig,
    pub exp_lookup: LookupChip,
}

/// Each pair of cells is a row of the function.
spec fn all_rows(
    domain: Seq<(I18, I18)>,
    env: Assignment,
    ins: Seq<AssignedCell>,
    outs: Seq<AssignedCell>,
) -> bool {
    forall|i: int|
        0 <= i < ins.len() ==> is_function_row(
            domain,
            centered(env.cell((#[trigger] ins[i]).cell)),
            centered(env.cell(outs[i].cell)),
        )
}

/// Each division's cells prove a quotient of a numerator cell by the divisor cell.
spec fn all_divided(
    env: Assignment,
    nums: Seq<AssignedCell>,
    d: AssignedCell,
    qs: Seq<AssignedCell>,
) -> bool {
    forall|i: int|
        0 <= i < qs.len() ==> div_sound(
            env.cell(nums[i].cell),
            env.cell(d.cell),
            env.cell((#[trigger] qs[i]).cell),
        )
}

impl SoftmaxChip {
    /// The chip's configuration is well formed and its lookup is the configured one.
    pub open spec fn wf(self) -> bool {
        self.config.wf() && self.exp_lookup.config == self.config.lookup
    }

    pub open spec fn domain(self) -> Seq<(I18, I18)> {
        self.exp_lookup.domain@
    }

    pub open spec fn ok(self, setup: Setup) -> bool {
        self.config.rules(setup) && self.config.lookup.loaded(setup, self.domain())
    }

    /// Whatever satisfies the layout has the softmax of the inputs in the output cells.
    pub open spec fn sound(
        self,
        l: Layouter,
        ins: Seq<AssignedCell>,
        outs: Seq<AssignedCell>,
    ) -> bool {
        forall|setup: Setup, env: Assignment|
            self.ok(setup) && #[trigger] l.sat(setup, env) ==> softmax_proves(
                self.domain(),
                cell_raws(env, ins),
                shifted_raws(env, outs),
            )
    }

    pub fn configure(
        meta: &mut ConstraintSystem,
        exp_input: Column,
        exp_output: Column,
        sum_values: Column,
        sum: Column,
        sum_shift: Column,
        div_numerator: Column,
        div_divisor: Column,
        div_q_shift: Column,
        div_r: Column,
        div_slack: Column,
        div_dm1: Column,
        bits: Column,
        k: usize,
    ) -> (config: SoftmaxConfig)
        requires
            k >= 1,
            old(meta).tables + 2 <= usize::MAX,
        ensures
            config.wf(),
            config.k == k,
            config.lookup.input == exp_input && config.lookup.output == exp_output,
            config.sum.values == sum_values && config.sum.sum == sum && config.sum.sum_shift
                == sum_shift && config.sum.range_sum.bits == bits,
            config.div.numerator == div_numerator && config.div.divisor == div_divisor
                && config.div.q_shift == div_q_shift && config.div.r == div_r && config.div.slack
                == div_slack && config.div.dm1 == div_dm1 && config.div.range_q.bits == bits,
            config.lookup.table_input.0 == old(meta).tables,
            config.lookup.table_output.0 == old(meta).tables + 1,
            final(meta).advice == old(meta).advice,
            final(meta).fixed == old(meta).fixed,
            final(meta).instance == old(meta).instance,
            final(meta).tables == old(meta).tables + 2,
            final(meta).constants@ == old(meta).constants@,
            final(meta).rules@.len() == old(meta).rules@.len() + 17,
            final(meta).extends(*old(meta)),
            forall|setup: Setup|
                setup.cs.extends(*final(meta)) ==> #[trigger] config.rules(setup),
            forall|setup: Setup, domain: Seq<(I18, I18)>|
                #![trigger setup.cs.extends(*final(meta)), config.lookup.loaded(setup, domain)]
                setup.cs.extends(*final(meta)) && config.lookup.loaded(setup, domain)
                    ==> setup.rests_between(*old(meta), *final(meta)),
    {
        let lookup = LookupChip::configure(meta, exp_input, exp_output);
        let sum_config = ReduceSumChip::configure(meta, sum_values, sum, sum_shift, bits, k);
        let div = DivChip::configure(
            meta,
            div_numerator,
            div_divisor,
            div_q_shift,
            div_r,
            div_slack,
            div_dm1,
            bits,
        );
        let config = SoftmaxConfig { lookup, sum: sum_config, div, k };
        proof {
            broadcast use group_extends;

            assert forall|setup: Setup| setup.cs.extends(*meta) implies #[trigger] config.rules(
                setup,
            ) by {}
        }
        config
    }

    /// A chip whose exponentials are `values[i]` at `domain[i]`.
    pub fn construct(config: SoftmaxConfig, domain: Vec<I18>, values: Vec<I18>) -> (chip: Self)
        requires
            domain@.len() == values@.len(),
        ensures
            chip.config == config,
            chip.exp_lookup.config == config.lookup,
            chip.domain().len() == domain@.len(),
            forall|i: int|
                0 <= i < domain@.len() ==> #[trigger] chip.domain()[i] == (domain@[i], values@[i]),
    {
        SoftmaxChip { config, exp_lookup: LookupChip::construct(config.lookup, domain, values) }
    }

    /// Loads the exponentials' table. Called once in a synthesis.
    pub fn load_table(&self, layouter: &mut Layouter)
        requires
            self.wf(),
            (old(layouter).tables())(self.config.lookup.table_input.0 as int).len() == 0,
            (old(layouter).tables())(self.config.lookup.table_output.0 as int).len() == 0,
        ensures
            final(layouter).only_loads(*old(layouter)),
            (final(layouter).tables())(self.config.lookup.table_input.0 as int) == input_rows(
                self.domain(),
            ),
            (final(layouter).tables())(self.config.lookup.table_output.0 as int) == output_rows(
                self.domain(),
            ),
            forall|t: int|
                t != self.config.lookup.table_input.0 && t != self.config.lookup.table_output.0
                    ==> #[trigger] (final(layouter).tables())(t) == (old(layouter).tables())(t),
    {
        self.exp_lookup.load_table(layouter);
    }

    /// Looks the exponentials of the inputs up, in order, until one is no point of the domain.
    fn look_up_each(&self, layouter: &mut Layouter, inputs: &Vec<I18>) -> (res: Result<
        (Vec<I18>, Vec<AssignedCell>, Vec<AssignedCell>),
        LookupError,
    >)
        requires
            self.wf(),
        ensures
            final(layouter).grows(*old(layouter)),
            match res {
                Ok((es, ins, outs)) => {
                    &&& in_domain_up_to(self.domain(), inputs@, inputs@.len() as int)
                    &&& es@ == exponentials(self.domain(), inputs@)
                    &&& hold_raw(*final(layouter), ins@, inputs@)
                    &&& hold_raw(*final(layouter), outs@, es@)
                    &&& all_in(ins@, self.config.lookup.input)
                    &&& all_in(outs@, self.config.lookup.output)
                    &&& forall|setup: Setup, env: Assignment|
                        self.ok(setup) && #[trigger] final(layouter).sat(setup, env) ==> all_rows(
                            self.domain(),
                            env,
                            ins@,
                            outs@,
                        )
                    &&& forall|setup: Setup|
                        self.ok(setup) && self.config.distinct() && old(layouter).honest(setup)
                            ==> #[trigger] final(layouter).honest(setup)
                },
                Err(e) => e matches LookupError::InputNotInDomain(x) && exists|i: int|
                    0 <= i < inputs@.len() && x == #[trigger] inputs@[i] && value_at(
                        self.domain(),
                        x@,
                    ) is None && in_domain_up_to(self.domain(), inputs@, i),
            },
    {
        let ghost base = *layouter;
        let ghost domain = self.domain();
        let cfg = self.config.lookup;
        let mut es: Vec<I18> = Vec::new();
        let mut ins: Vec<AssignedCell> = Vec::new();
        let mut outs: Vec<AssignedCell> = Vec::new();
        let mut i: usize = 0;
        while i < inputs.len()
            invariant
                i <= inputs@.len(),
                base == *old(layouter),
                self.wf(),
                domain == self.domain(),
                cfg == self.config.lookup,
                layouter.grows(base),
                es@.len() == i,
                ins@.len() == i,
                outs@.len() == i,
                in_domain_up_to(domain, inputs@, i as int),
                all_in(ins@, cfg.input),
                all_in(outs@, cfg.output),
                forall|j: int|
                    0 <= j < i ==> #[trigger] es@[j] == value_at(domain, inputs@[j]@)->0,
                forall|j: int|
                    0 <= j < i ==> layouter.has(#[trigger] ins@[j]) && ins@[j].value@
                        == inputs@[j]@ % modulus(),
                forall|j: int|
                    0 <= j < i ==> layouter.has(#[trigger] outs@[j]) && outs@[j].value@ == es@[j]@
                        % modulus(),
                forall|setup: Setup, env: Assignment, j: int|
                    #![trigger layouter.sat(setup, env), ins@[j]]
                    self.ok(setup) && layouter.sat(setup, env) && 0 <= j < i ==> is_function_row(
                        domain,
                        centered(env.cell(ins@[j].cell)),
                        centered(env.cell(outs@[j].cell)),
                    ),
                forall|setup: Setup|
                    self.ok(setup) && self.config.distinct() && base.honest(setup)
                        ==> #[trigger] layouter.honest(setup),
            decreases inputs@.len() - i,
        {
            let ghost before = *layouter;
            let x: I18 = inputs[i];
            let y: I18 = match self.exp_lookup.find(x) {
                Some(y) => y,
                None => {
                    return Err(LookupError::InputNotInDomain(x));
                },
            };
            proof {
                lemma_value_at(domain, x@);
            }
            let pair: (AssignedCell, AssignedCell) = assign_lookup_row(&cfg, layouter, x, y);
            proof {
                lemma_hold(*layouter, before, ins@);
                lemma_hold(*layouter, before, outs@);
            }
            let ghost (pi, po) = (ins@, outs@);
            es.push(y);
            ins.push(pair.0);
            outs.push(pair.1);
            proof {
                assert forall|j: int| 0 <= j < i + 1 implies layouter.has(#[trigger] ins@[j])
                    && ins@[j].value@ == inputs@[j]@ % modulus() by {
                    if j < i {
                        assert(layouter.has(pi[j]));
                    }
                }
                assert forall|j: int| 0 <= j < i + 1 implies layouter.has(#[trigger] outs@[j])
                    && outs@[j].value@ == es@[j]@ % modulus() by {
                    if j < i {
                        assert(layouter.has(po[j]));
                    }
                }
                assert forall|setup: Setup, env: Assignment, j: int|
                    #![trigger layouter.sat(setup, env), ins@[j]]
                    self.ok(setup) && layouter.sat(setup, env) && 0 <= j < i
                        + 1 implies is_function_row(
                    domain,
                    centered(env.cell(ins@[j].cell)),
                    centered(env.cell(outs@[j].cell)),
                ) by {
                    assert(before.sat(setup, env));
                    assert(cfg.ok(setup, domain));
                    if j < i {
                        assert(ins@[j] == pi[j] && outs@[j] == po[j]);
                    }
                }
                assert forall|setup: Setup|
                    self.ok(setup) && self.config.distinct() && base.honest(
                        setup,
                    ) implies #[trigger] layouter.honest(setup) by {
                    assert(before.honest(setup));
                    assert(cfg.ok(setup, domain));
                }
            }
            i += 1;
        }
        assert(es@ =~= exponentials(domain, inputs@));
        Ok((es, ins, outs))
    }

    /// Divides each number by the sum and links numerators and divisors to their cells.
    fn divide_each(
        &self,
        layouter: &mut Layouter,
        es: &Vec<I18>,
        e_cells: &Vec<AssignedCell>,
        sum: I18,
        sum_cell: AssignedCell,
    ) -> (res: Result<(Vec<I18>, Vec<AssignedCell>), DivError>)
        requires
            self.wf(),
            hold_raw(*old(layouter), e_cells@, es@),
            old(layouter).has(sum_cell),
            sum_cell.value@ == sum@ % modulus(),
        ensures
            final(layouter).grows(*old(layouter)),
            match res {
                Ok((outs, cells)) => {
                    &&& es@.len() > 0 ==> sum@ > 0
                    &&& forall|i: int|
                        0 <= i < es@.len() ==> is_i64(quotient((#[trigger] es@[i])@, sum@))
                    &&& outs@.len() == es@.len()
                    &&& forall|i: int|
                        0 <= i < outs@.len() ==> (#[trigger] outs@[i])@ == quotient(
                            es@[i]@,
                            sum@,
                        )
                    &&& hold_shifted(*final(layouter), cells@, outs@)
                    &&& all_in(cells@, self.config.div.q_shift)
                    &&& forall|setup: Setup, env: Assignment|
                        self.config.div.ok(setup) && #[trigger] final(layouter).sat(setup, env)
                            ==> all_divided(env, e_cells@, sum_cell, cells@)
                    &&& forall|setup: Setup|
                        self.config.div.ok(setup) && self.config.div.distinct() && all_linked(
                            setup,
                            e_cells@,
                        ) && setup.cs.linked(sum_cell.cell.column) && old(layouter).honest(setup)
                            ==> #[trigger] final(layouter).honest(setup)
                },
                Err(e) => exists|i: int| #[trigger] fails_at(raws(es@), sum@, e, i),
            },
    {
        let ghost base = *layouter;
        let cfg = self.config.div;
        let mut outs: Vec<I18> = Vec::new();
        let mut cells: Vec<AssignedCell> = Vec::new();
        let mut i: usize = 0;
        while i < es.len()
            invariant
                i <= es@.len(),
                base == *old(layouter),
                self.wf(),
                cfg == self.config.div,
                hold_raw(base, e_cells@, es@),
                base.has(sum_cell),
                sum_cell.value@ == sum@ % modulus(),
                layouter.grows(base),
                i > 0 ==> sum@ > 0,
                forall|j: int| 0 <= j < i ==> is_i64(quotient((#[trigger] es@[j])@, sum@)),
                outs@.len() == i,
                cells@.len() == i,
                all_in(cells@, cfg.q_shift),
                forall|j: int|
                    0 <= j < i ==> (#[trigger] outs@[j])@ == quotient(es@[j]@, sum@),
                forall|j: int|
                    0 <= j < i ==> layouter.has(#[trigger] cells@[j]) && cells@[j].value@
                        == outs@[j]@ + SIGNED_SHIFT,
                forall|setup: Setup, env: Assignment, j: int|
                    #![trigger layouter.sat(setup, env), cells@[j]]
                    cfg.ok(setup) && layouter.sat(setup, env) && 0 <= j < i ==> div_sound(
                        env.cell(e_cells@[j].cell),
                        env.cell(sum_cell.cell),
                        env.cell(cells@[j].cell),
                    ),
                forall|setup: Setup|
                    cfg.ok(setup) && cfg.distinct() && all_linked(setup, e_cells@)
                        && setup.cs.linked(sum_cell.cell.column) && base.honest(setup)
                        ==> #[trigger] layouter.honest(setup),
            decreases es@.len() - i,
        {
            let ghost before = *layouter;
            let (q, n_cell, d_cell): (I18, AssignedCell, AssignedCell) = match DivChip::construct(
                cfg,
            ).assign(layouter, es[i], sum) {
                Ok(v) => v,
                Err(e) => {
                    proof {
                        let vals = raws(es@);
                        assert forall|j: int| 0 <= j < i implies sum@ > 0 && is_i64(
                            quotient(#[trigger] vals[j], sum@),
                        ) by {
                            assert(is_i64(quotient(es@[j]@, sum@)));
                        }
                        assert(fails_at(vals, sum@, e, i as int));
                    }
                    return Err(e);
                },
            };
            let ghost mid = *layouter;
            layouter.region();
            layouter.constrain_equal(n_cell.cell, e_cells[i].cell);
            layouter.constrain_equal(d_cell.cell, sum_cell.cell);
            let (q_fr, _) = shifted_i64_witness(q.raw());
            let q_cell = AssignedCell {
                cell: Cell { region: n_cell.cell.region, column: cfg.q_shift, offset: 0 },
                value: q_fr,
            };
            proof {
                assert(layouter.grows(before));
                lemma_hold(*layouter, before, cells@);
                assert(base.has(e_cells@[i as int]));
                lemma_i18_range(sum);
            }
            let ghost prev = cells@;
            outs.push(q);
            cells.push(q_cell);
            proof {
                assert forall|j: int| 0 <= j < i + 1 implies layouter.has(#[trigger] cells@[j])
                    && cells@[j].value@ == outs@[j]@ + SIGNED_SHIFT by {
                    if j < i {
                        assert(layouter.has(prev[j]));
                    } else {
                        assert forall|env: Assignment| #[trigger] layouter.agrees(
                            env,
                        ) implies env.cell(q_cell.cell) == q_cell.value@ by {
                            assert(mid.agrees(env));
                        }
                    }
                }
                assert forall|setup: Setup, env: Assignment, j: int|
                    #![trigger layouter.sat(setup, env), cells@[j]]
                    cfg.ok(setup) && layouter.sat(setup, env) && 0 <= j < i + 1 implies div_sound(
                    env.cell(e_cells@[j].cell),
                    env.cell(sum_cell.cell),
                    env.cell(cells@[j].cell),
                ) by {
                    assert(mid.sat(setup, env) && before.sat(setup, env));
                    if j < i {
                        assert(cells@[j] == prev[j]);
                    }
                }
                assert forall|setup: Setup|
                    cfg.ok(setup) && cfg.distinct() && all_linked(setup, e_cells@)
                        && setup.cs.linked(sum_cell.cell.column) && base.honest(
                        setup,
                    ) implies #[trigger] layouter.honest(setup) by {
                    assert(before.honest(setup));
                    assert(mid.honest(setup));
                    assert(setup.cs.linked(e_cells@[i as int].cell.column));
                    assert forall|env: Assignment| #[trigger] layouter.agrees(
                        env,
                    ) implies layouter.sat(setup, env) by {
                        assert(mid.agrees(env) && before.agrees(env));
                        assert(base.agrees(env));
                    }
                }
            }
            i += 1;
        }
        Ok((outs, cells))
    }

    /// Lays the softmax out and returns its outputs with every cell that a caller needs to link
    /// inputs and outputs elsewhere.
    pub fn assign_cells(&self, layouter: &mut Layouter, inputs: &Vec<I18>) -> (res: Result<
        SoftmaxOutput,
        SoftmaxError,
    >)
        requires
            self.wf(),
            inputs@.len() == self.config.k && in_domain_up_to(
                self.domain(),
                inputs@,
                inputs@.len() as int,
            ) ==> sums_fit(exponentials(self.domain(), inputs@)),
        ensures
            final(layouter).grows(*old(layouter)),
            match res {
                Ok(out) => {
                    &&& self.computes(inputs@, out.outputs@)
                    &&& hold_raw(*final(layouter), out.input_cells@, inputs@)
                    &&& all_in(out.input_cells@, self.config.lookup.input)
                    &&& hold_shifted(*final(layouter), out.output_cells@, out.outputs@)
                    &&& all_in(out.output_cells@, self.config.div.q_shift)
                    &&& self.sound(*final(layouter), out.input_cells@, out.output_cells@)
                    &&& forall|setup: Setup|
                        self.ok(setup) && self.config.distinct() && old(layouter).honest(setup)
                            ==> #[trigger] final(layouter).honest(setup)
                },
                Err(e) => self.fails_with(inputs@, e),
            },
    {
        let cfg = self.config;
        if inputs.len() != cfg.k {
            return Err(SoftmaxError::InputCountMismatch { expected: cfg.k, got: inputs.len() });
        }
        let ghost base = *layouter;
        let ghost domain = self.domain();
        let (es, ins, e_cells): (Vec<I18>, Vec<AssignedCell>, Vec<AssignedCell>) =
            match self.look_up_each(layouter, inputs) {
            Ok(v) => v,
            Err(e) => {
                return Err(SoftmaxError::Lookup(e));
            },
        };
        let ghost l1 = *layouter;
        let (sum, sum_cell, value_cells): (I18, AssignedCell, Vec<AssignedCell>) =
            ReduceSumChip::construct(cfg.sum).assign(layouter, &es);
        let ghost l2 = *layouter;
        proof {
            lemma_hold(l2, l1, e_cells@);
        }
        link_each(layouter, &e_cells, &value_cells);
        let ghost l3 = *layouter;
        proof {
            lemma_hold(l3, l2, e_cells@);
            assert forall|env: Assignment| #[trigger] l3.agrees(env) implies env.cell(sum_cell.cell)
                == sum_cell.value@ by {
                assert(l2.agrees(env));
            }
        }
        let ghost vals = raws(es@);
        let (outs, out_cells): (Vec<I18>, Vec<AssignedCell>) = match self.divide_each(
            layouter,
            &es,
            &e_cells,
            sum,
            sum_cell,
        ) {
            Ok(v) => v,
            Err(e) => {
                return Err(SoftmaxError::Div(e));
            },
        };
        proof {
            broadcast use lemma_i18_range;

            assert forall|i: int| 0 <= i < vals.len() implies is_i64(
                quotient(#[trigger] vals[i], total(vals)),
            ) by {
                assert(is_i64(quotient(es@[i]@, sum@)));
            }
            assert(layouter.grows(l1));
            lemma_hold(*layouter, l1, ins@);
            assert forall|setup: Setup, env: Assignment|
                self.ok(setup) && #[trigger] layouter.sat(setup, env) implies softmax_proves(
                domain,
                cell_raws(env, ins@),
                shifted_raws(env, out_cells@),
            ) by {
                assert(l3.sat(setup, env) && l2.sat(setup, env) && l1.sat(setup, env));
                assert(all_rows(domain, env, ins@, e_cells@));
                assert(sum_sound(env, sum_cell, value_cells@));
                assert(equal_cells(env, e_cells@, value_cells@));
                assert(all_divided(env, e_cells@, sum_cell, out_cells@));
                lemma_softmax(domain, env, ins@, e_cells@, value_cells@, sum_cell, out_cells@);
            }
            assert forall|setup: Setup|
                self.ok(setup) && cfg.distinct() && base.honest(
                    setup,
                ) implies #[trigger] layouter.honest(setup) by {
                assert(l1.honest(setup));
                assert(l2.honest(setup));
                assert(all_linked(setup, e_cells@));
                assert(all_linked(setup, value_cells@)) by {
                    assert forall|i: int| 0 <= i < value_cells@.len() implies setup.cs.linked(
                        (#[trigger] value_cells@[i]).cell.column,
                    ) by {
                        assert(value_cells@[i].is(
                            l1.next(),
                            cfg.sum.values,
                            i,
                            es@[i]@ % modulus(),
                        ));
                    }
                }
                assert(l3.honest(setup)) by {
                    assert forall|i: int| 0 <= i < e_cells@.len() implies l2.has(
                        #[trigger] e_cells@[i],
                    ) && l2.has(value_cells@[i]) && e_cells@[i].value@
                        == value_cells@[i].value@ by {
                        assert(l2.has(value_cells@[i]));
                        assert(value_cells@[i].is(
                            l1.next(),
                            cfg.sum.values,
                            i,
                            es@[i]@ % modulus(),
                        ));
                    }
                }
            }
        }
        Ok(SoftmaxOutput { outputs: outs, output_cells: out_cells, input_cells: ins })
    }

    /// The softmax of inputs in the domain, with a positive sum and quotients in range.
    pub open spec fn computes(self, inputs: Seq<I18>, outs: Seq<I18>) -> bool {
        let es = raws(exponentials(self.domain(), inputs));
        &&& inputs.len() == self.config.k
        &&& in_domain_up_to(self.domain(), inputs, inputs.len() as int)
        &&& total(es) > 0
        &&& divides_up_to(es, es.len() as int)
        &&& outs.len() == inputs.len()
        &&& forall|i: int|
            0 <= i < outs.len() ==> (#[trigger] outs[i])@ == quotient(es[i], total(es))
    }

    /// The error of a softmax: the count of inputs, the first input that is no point of the
    /// domain, or the first division that fails, in this order.
    pub open spec fn fails_with(self, inputs: Seq<I18>, e: SoftmaxError) -> bool {
        let es = raws(exponentials(self.domain(), inputs));
        match e {
            SoftmaxError::InputCountMismatch { expected, got } => inputs.len() != self.config.k
                && expected == self.config.k && got == inputs.len(),
            SoftmaxError::Lookup(LookupError::InputNotInDomain(x)) => inputs.len() == self.config.k
                && exists|i: int|
                0 <= i < inputs.len() && x == #[trigger] inputs[i] && value_at(
                    self.domain(),
                    x@,
                ) is None && in_domain_up_to(self.domain(), inputs, i),
            SoftmaxError::Div(d) => {
                &&& inputs.len() == self.config.k
                &&& in_domain_up_to(self.domain(), inputs, inputs.len() as int)
                &&& exists|i: int| #[trigger] fails_at(es, total(es), d, i)
            },
            _ => false,
        }
    }

    /// Lays the softmax out and returns its outputs.
    pub fn assign(&self, layouter: &mut Layouter, inputs: &Vec<I18>) -> (res: Result<
        Vec<I18>,
        SoftmaxError,
    >)
        requires
            self.wf(),
            inputs@.len() == self.config.k && in_domain_up_to(
                self.domain(),
                inputs@,
                inputs@.len() as int,
            ) ==> sums_fit(exponentials(self.domain(), inputs@)),
        ensures
            final(layouter).grows(*old(layouter)),
            match res {
                Ok(outs) => {
                    &&& self.computes(inputs@, outs@)
                    &&& exists|ins: Seq<AssignedCell>, cells: Seq<AssignedCell>|
                        hold_raw(*final(layouter), ins, inputs@) && all_in(
                            ins,
                            self.config.lookup.input,
                        ) && hold_shifted(*final(layouter), cells, outs@) && all_in(
                            cells,
                            self.config.div.q_shift,
                        ) && #[trigger] self.sound(*final(layouter), ins, cells)
                    &&& forall|setup: Setup|
                        self.ok(setup) && self.config.distinct() && old(layouter).honest(setup)
                            ==> #[trigger] final(layouter).honest(setup)
                },
                Err(e) => self.fails_with(inputs@, e),
            },
    {
        match self.assign_cells(layouter, inputs) {
            Ok(out) => {
                assert(self.sound(*layouter, out.input_cells@, out.output_cells@));
                Ok(out.outputs)
            },
            Err(e) => Err(e),
        }
    }
}

/// The error of a division: a divisor that is not positive, or a quotient out of range.
pub open spec fn div_error(n: int, d: int, e: DivError) -> bool {
    match e {
        DivError::NonPositiveDivisor { divisor } => d <= 0 && divisor == d,
        DivError::QuotientOverflow(t) => d > 0 && !is_i64(quotient(n, d)) && t.0@
            == quotient_overflow_text(n, d),
        DivError::Circuit(t) => false,
    }
}

/// The division of the `i`-th number is the first that fails.
pub open spec fn fails_at(es: Seq<int>, d: int, e: DivError, i: int) -> bool {
    &&& 0 <= i < es.len()
    &&& div_error(es[i], d, e)
    &&& forall|j: int| 0 <= j < i ==> d > 0 && is_i64(quotient(#[trigger] es[j], d))
}

/// The cells of a satisfied layout hold a softmax.
proof fn lemma_softmax(
    domain: Seq<(I18, I18)>,
    env: Assignment,
    ins: Seq<AssignedCell>,
    e_cells: Seq<AssignedCell>,
    values: Seq<AssignedCell>,
    sum: AssignedCell,
    outs: Seq<AssignedCell>,
)
    requires
        ins.len() > 0,
        e_cells.len() == ins.len(),
        values.len() == ins.len(),
        outs.len() == ins.len(),
        all_rows(domain, env, ins, e_cells),
        sum_sound(env, sum, values),
        equal_cells(env, e_cells, values),
        all_divided(env, e_cells, sum, outs),
    ensures
        softmax_proves(domain, cell_raws(env, ins), shifted_raws(env, outs)),
{
    broadcast use {lemma_i18_range, lemma_at_range};

    let xs = cell_raws(env, ins);
    let es = cell_raws(env, e_cells);
    assert forall|i: int| 0 <= i < es.len() implies is_i64(#[trigger] es[i]) && is_function_row(
        domain,
        xs[i],
        es[i],
    ) by {
        assert(is_function_row(
            domain,
            centered(env.cell(ins[i].cell)),
            centered(env.cell(e_cells[i].cell)),
        ));
    }
    assert(cell_raws(env, values) =~= es) by {
        assert forall|i: int| 0 <= i < es.len() implies cell_raws(env, values)[i]
            == #[trigger] es[i] by {
            assert(env.cell(e_cells[i].cell) == env.cell(values[i].cell));
        }
    }
    let s = centered(env.cell(sum.cell));
    assert(s == total(es));
    assert(div_sound(
        env.cell(e_cells[0].cell),
        env.cell(sum.cell),
        env.cell(outs[0].cell),
    ));
    assert(env.cell(sum.cell) == s);
    let qs = shifted_raws(env, outs);
    assert forall|i: int| 0 <= i < qs.len() implies #[trigger] qs[i] == quotient(
        es[i],
        total(es),
    ) by {
        assert(div_sound(
            env.cell(e_cells[i].cell),
            env.cell(sum.cell),
            env.cell(outs[i].cell),
        ));
        assert(is_i64(es[i]));
    }
    assert(softmax_of(domain, xs, es, qs));
}

} // verus!
