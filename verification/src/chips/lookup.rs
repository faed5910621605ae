//! Lookups of fixed, public functions on quantized domains.
//!
//! On a row where the lookup is on, the pair of input and output must be a row of the function's
//! table. Everywhere else the looked-up pair collapses to a reserved row, so that a domain need
//! not map zero to zero.
use vstd::prelude::*;
use vstd::string::*;

use crate::field::{centered, lemma_centered_of, modulus};
use crate::field_convert::i64_to_fr;
use crate::fixed_point::{lemma_i18_range, I18};
use crate::layout::{cell_at, AssignedCell, Layouter, Mark};
use crate::plonk::{
    group_extends, has_pair, lemma_at_range, Assignment, Column, ConstraintSystem, Expression,
    Selector, Setup, TableColumn,
};
use crate::text::{signed_decimal, signed_text};

verus! {

/// Input of the reserved row, a raw value that no domain point takes.
pub const PAD_INPUT_RAW: i64 = i64::MIN;

/// Output of the reserved row.
pub const PAD_OUTPUT_RAW: i64 = 0;

#[derive(Debug)]
pub enum LookupError {
    /// The input is not a point of the domain.
    InputNotInDomain(I18),
    /// Synthesis failed.
    Synthesis(String),
}

impl LookupError {
    pub open spec fn text(self) -> Seq<char> {
        match self {
            LookupError::InputNotInDomain(input) => "input with raw value "@ + signed_decimal(
                input@,
            ) + " is not a point of the lookup domain"@,
            LookupError::Synthesis(e) => "lookup synthesis error: "@ + e@,
        }
    }

    /// The text of the error.
    pub fn message(&self) -> (r: String)
        ensures
            r@ == self.text(),
    {
        match self {
            LookupError::InputNotInDomain(input) => {
                let mut r = String::from_str("input with raw value ");
                r.append(signed_text(input.raw() as i128).as_str());
                r.append(" is not a point of the lookup domain");
                r
            },
            LookupError::Synthesis(e) => {
                let mut r = String::from_str("lookup synthesis error: ");
                r.append(e.as_str());
                r
            },
        }
    }
}

#[derive(Clone, Copy, Debug)]
pub struct LookupConfig {
    pub input: Column,
    pub output: Column,
    pub selector: Selector,
    pub table_input: TableColumn,
    pub table_output: TableColumn,
}

/// The inputs of a domain, as the table holds them.
pub open spec fn input_rows(domain: Seq<(I18, I18)>) -> Seq<int> {
    Seq::new(
        domain.len() + 1,
        |i: int|
            if i < domain.len() {
                domain[i].0@ % modulus()
            } else {
                PAD_INPUT_RAW as int % modulus()
            },
    )
}

/// The outputs of a domain, as the table holds them.
pub open spec fn output_rows(domain: Seq<(I18, I18)>) -> Seq<int> {
    Seq::new(
        domain.len() + 1,
        |i: int|
            if i < domain.len() {
                domain[i].1@ % modulus()
            } else {
                PAD_OUTPUT_RAW as int % modulus()
            },
    )
}

/// The output at the first domain point equal to an input.
pub open spec fn value_at(domain: Seq<(I18, I18)>, x: int) -> Option<I18>
    decreases domain.len(),
{
    if domain.len() == 0 {
        None
    } else if domain[0].0@ == x {
        Some(domain[0].1)
    } else {
        value_at(domain.drop_first(), x)
    }
}

/// A domain point has this output.
pub open spec fn in_domain(domain: Seq<(I18, I18)>, x: int, y: int) -> bool {
    exists|i: int| 0 <= i < domain.len() && (#[trigger] domain[i]).0@ == x && domain[i].1@ == y
}

/// What a lookup proves: the pair is a domain point with its output, or the reserved row.
pub open spec fn is_function_row(domain: Seq<(I18, I18)>, x: int, y: int) -> bool {
    in_domain(domain, x, y) || (x == PAD_INPUT_RAW && y == PAD_OUTPUT_RAW)
}

/// The table has no two outputs at one point.
pub open spec fn single_valued(domain: Seq<(I18, I18)>) -> bool {
    forall|x: int, y: int, z: int|
        #![trigger is_function_row(domain, x, y), is_function_row(domain, x, z)]
        is_function_row(domain, x, y) && is_function_row(domain, x, z) ==> y == z
}

/// The first output at a domain point is an output at that point.
pub proof fn lemma_value_at(domain: Seq<(I18, I18)>, x: int)
    ensures
        value_at(domain, x) matches Some(y) ==> in_domain(domain, x, y@),
        value_at(domain, x) is None ==> forall|i: int|
            0 <= i < domain.len() ==> (#[trigger] domain[i]).0@ != x,
    decreases domain.len(),
{
    if domain.len() > 0 {
        let rest = domain.drop_first();
        lemma_value_at(rest, x);
        if domain[0].0@ != x {
            if let Some(y) = value_at(rest, x) {
                let i = choose|i: int|
                    0 <= i < rest.len() && (#[trigger] rest[i]).0@ == x && rest[i].1@ == y@;
                assert(domain[i + 1] == rest[i]);
            } else {
                assert forall|i: int| 0 <= i < domain.len() implies (#[trigger] domain[i]).0@
                    != x by {
                    if i > 0 {
                        assert(rest[i - 1] == domain[i]);
                    }
                }
            }
        }
    }
}

impl LookupConfig {
    pub open spec fn rules(self, setup: Setup) -> bool {
        &&& forall|env: Assignment, r: int, o: int| #[trigger]
            setup.holds(self.selector, env, r, o) <==> has_pair(
                (setup.tables)(self.table_input.0 as int),
                (setup.tables)(self.table_output.0 as int),
                env.at(r, self.input, o) % modulus(),
                env.at(r, self.output, o) % modulus(),
            )
        &&& setup.rests(self.selector) <==> has_pair(
            (setup.tables)(self.table_input.0 as int),
            (setup.tables)(self.table_output.0 as int),
            PAD_INPUT_RAW as int % modulus(),
            PAD_OUTPUT_RAW as int % modulus(),
        )
        &&& setup.cs.linked(self.input)
        &&& setup.cs.linked(self.output)
    }

    /// The table holds the domain and the reserved row.
    pub open spec fn loaded(self, setup: Setup, domain: Seq<(I18, I18)>) -> bool {
        &&& (setup.tables)(self.table_input.0 as int) == input_rows(domain)
        &&& (setup.tables)(self.table_output.0 as int) == output_rows(domain)
    }

    pub open spec fn ok(self, setup: Setup, domain: Seq<(I18, I18)>) -> bool {
        self.rules(setup) && self.loaded(setup, domain)
    }

    pub open spec fn wf(self) -> bool {
        self.table_input != self.table_output
    }

    /// A loaded table holds the reserved row, so rows that are not looked up satisfy the lookup.
    pub proof fn lemma_rests(self, setup: Setup, domain: Seq<(I18, I18)>)
        requires
            self.ok(setup, domain),
        ensures
            setup.rests(self.selector),
    {
        let n = domain.len() as int;
        assert(input_rows(domain)[n] == PAD_INPUT_RAW as int % modulus());
        assert(output_rows(domain)[n] == PAD_OUTPUT_RAW as int % modulus());
    }
}

/// A looked-up row is a row of the function.
pub proof fn lemma_lookup_sound(
    cfg: LookupConfig,
    setup: Setup,
    domain: Seq<(I18, I18)>,
    env: Assignment,
    r: int,
    o: int,
)
    requires
        cfg.ok(setup, domain),
        setup.holds(cfg.selector, env, r, o),
    ensures
        is_function_row(
            domain,
            centered(env.at(r, cfg.input, o)),
            centered(env.at(r, cfg.output, o)),
        ),
{
    broadcast use {lemma_at_range, lemma_i18_range};

    let (x, y) = (env.at(r, cfg.input, o), env.at(r, cfg.output, o));
    vstd::arithmetic::div_mod::lemma_small_mod(x as nat, modulus() as nat);
    vstd::arithmetic::div_mod::lemma_small_mod(y as nat, modulus() as nat);
    let xs = input_rows(domain);
    let ys = output_rows(domain);
    let k = choose|k: int|
        0 <= k < xs.len() && k < ys.len() && #[trigger] xs[k] == x && ys[k] == y;
    if k < domain.len() {
        lemma_centered_of(domain[k].0@);
        lemma_centered_of(domain[k].1@);
    } else {
        lemma_centered_of(PAD_INPUT_RAW as int);
        lemma_centered_of(PAD_OUTPUT_RAW as int);
    }
}

/// A domain point's row holds.
pub proof fn lemma_lookup_complete(
    cfg: LookupConfig,
    setup: Setup,
    domain: Seq<(I18, I18)>,
    x: int,
    y: int,
)
    requires
        cfg.loaded(setup, domain),
        in_domain(domain, x, y),
    ensures
        has_pair(
            (setup.tables)(cfg.table_input.0 as int),
            (setup.tables)(cfg.table_output.0 as int),
            (x % modulus()) % modulus(),
            (y % modulus()) % modulus(),
        ),
{
    let i = choose|i: int|
        0 <= i < domain.len() && (#[trigger] domain[i]).0@ == x && domain[i].1@ == y;
    assert(input_rows(domain)[i] == x % modulus());
}

impl LookupConfig {
    /// The layout after a looked-up row.
    pub closed spec fn trace(self, t: Seq<Mark>) -> Seq<Mark> {
        t.push(Mark::Region).push(
            Mark::Enable { region: t.len() as usize, selector: self.selector, offset: 0 },
        ).push(Mark::Advice { cell: cell_at(t.len(), self.input, 0) }).push(
            Mark::Advice { cell: cell_at(t.len(), self.output, 0) },
        )
    }

    /// The layout after the first `n` rows of a function's table.
    pub closed spec fn rows_trace(self, t: Seq<Mark>, domain: Seq<(I18, I18)>, n: int) -> Seq<Mark>
        decreases n,
    {
        if n <= 0 {
            t.push(Mark::Table)
        } else {
            let row = (n - 1) as usize;
            self.rows_trace(t, domain, n - 1).push(
                Mark::TableRow {
                    table: self.table_input,
                    row,
                    value: domain[n - 1].0@ % modulus(),
                },
            ).push(
                Mark::TableRow {
                    table: self.table_output,
                    row,
                    value: domain[n - 1].1@ % modulus(),
                },
            )
        }
    }

    /// The layout after a function's table.
    pub closed spec fn table_trace(self, t: Seq<Mark>, domain: Seq<(I18, I18)>) -> Seq<Mark> {
        let row = domain.len() as usize;
        self.rows_trace(t, domain, domain.len() as int).push(
            Mark::TableRow {
                table: self.table_input,
                row,
                value: PAD_INPUT_RAW as int % modulus(),
            },
        ).push(
            Mark::TableRow {
                table: self.table_output,
                row,
                value: PAD_OUTPUT_RAW as int % modulus(),
            },
        )
    }
}

/// Witnesses a pair in a row of its own with the lookup on.
pub fn assign_lookup_row(cfg: &LookupConfig, layouter: &mut Layouter, input: I18, output: I18) -> (cells:
    (AssignedCell, AssignedCell))
    ensures
        final(layouter).grows(*old(layouter)),
        final(layouter).trace() == cfg.trace(old(layouter).trace()),
        cells.0.is(old(layouter).next(), cfg.input, 0, input@ % modulus()),
        cells.1.is(old(layouter).next(), cfg.output, 0, output@ % modulus()),
        final(layouter).has(cells.0),
        final(layouter).has(cells.1),
        forall|setup: Setup, env: Assignment, domain: Seq<(I18, I18)>|
            #![trigger cfg.ok(setup, domain), final(layouter).sat(setup, env)]
            cfg.ok(setup, domain) && final(layouter).sat(setup, env) ==> is_function_row(
                domain,
                centered(env.cell(cells.0.cell)),
                centered(env.cell(cells.1.cell)),
            ),
        forall|setup: Setup, domain: Seq<(I18, I18)>|
            #![trigger cfg.ok(setup, domain), final(layouter).honest(setup)]
            cfg.ok(setup, domain) && in_domain(domain, input@, output@) && cfg.input != cfg.output
                && old(layouter).honest(setup) ==> final(layouter).honest(setup),
{
    let ghost base = *layouter;
    let region: usize = layouter.region();
    layouter.enable(region, cfg.selector, 0);
    let in_cell = layouter.assign_advice(region, cfg.input, 0, i64_to_fr(input.raw()));
    let out_cell = layouter.assign_advice(region, cfg.output, 0, i64_to_fr(output.raw()));
    proof {
        let g = region as int;
        assert forall|setup: Setup, env: Assignment, domain: Seq<(I18, I18)>|
            #![trigger cfg.ok(setup, domain), layouter.sat(setup, env)]
            cfg.ok(setup, domain) && layouter.sat(setup, env) implies is_function_row(
            domain,
            centered(env.cell(in_cell.cell)),
            centered(env.cell(out_cell.cell)),
        ) by {
            assert(setup.holds(cfg.selector, env, g, 0));
            lemma_lookup_sound(*cfg, setup, domain, env, g, 0);
        }
        assert forall|setup: Setup, domain: Seq<(I18, I18)>|
            #![trigger cfg.ok(setup, domain), layouter.honest(setup)]
            cfg.ok(setup, domain) && in_domain(domain, input@, output@) && cfg.input != cfg.output
                && base.honest(setup) implies layouter.honest(setup) by {
            lemma_lookup_complete(*cfg, setup, domain, input@, output@);
            assert forall|env: Assignment| #[trigger] layouter.agrees(env) implies layouter.sat(
                setup,
                env,
            ) by {
                assert(base.agrees(env));
                assert(setup.holds(cfg.selector, env, g, 0));
            }
        }
    }
    (in_cell, out_cell)
}

/// Proves that a fixed function was evaluated at a point of its domain.
pub struct LookupChip {
    pub config: LookupConfig,
    /// The domain points with their outputs, in the order in which the table lists them.
    pub domain: Vec<(I18, I18)>,
}

impl LookupChip {
    pub open spec fn ok(self, setup: Setup) -> bool {
        self.config.ok(setup, self.domain@)
    }

    pub fn configure(meta: &mut ConstraintSystem, input: Column, output: Column) -> (config:
        LookupConfig)
        requires
            old(meta).tables + 2 <= usize::MAX,
        ensures
            config == (LookupConfig {
                input,
                output,
                selector: Selector(old(meta).rules@.len() as usize),
                table_input: TableColumn(old(meta).tables),
                table_output: TableColumn((old(meta).tables + 1) as usize),
            }),
            config.wf(),
            final(meta).rules@.len() == old(meta).rules@.len() + 1,
            final(meta).advice == old(meta).advice,
            final(meta).fixed == old(meta).fixed,
            final(meta).instance == old(meta).instance,
            final(meta).tables == old(meta).tables + 2,
            final(meta).constants@ == old(meta).constants@,
            final(meta).extends(*old(meta)),
            forall|setup: Setup|
                setup.cs.extends(*final(meta)) ==> #[trigger] config.rules(setup),
            forall|setup: Setup, domain: Seq<(I18, I18)>|
                #![trigger setup.cs.extends(*final(meta)), config.loaded(setup, domain)]
                setup.cs.extends(*final(meta)) && config.loaded(setup, domain)
                    ==> setup.rests_between(*old(meta), *final(meta)),
    {
        meta.enable_equality(input);
        meta.enable_equality(output);
        let table_input = meta.lookup_table_column();
        let table_output = meta.lookup_table_column();
        let selector = meta.lookup_pair(
            Expression::cell(input),
            i64_to_fr(PAD_INPUT_RAW),
            table_input,
            Expression::cell(output),
            i64_to_fr(PAD_OUTPUT_RAW),
            table_output,
        );
        let config = LookupConfig { input, output, selector, table_input, table_output };
        proof {
            broadcast use group_extends;

            assert forall|setup: Setup| setup.cs.extends(*meta) implies #[trigger] config.rules(
                setup,
            ) by {}
            assert forall|setup: Setup, domain: Seq<(I18, I18)>|
                #![trigger setup.cs.extends(*meta), config.loaded(setup, domain)]
                setup.cs.extends(*meta) && config.loaded(
                    setup,
                    domain,
                ) implies setup.rests_between(*old(meta), *meta) by {
                assert(config.rules(setup));
                config.lemma_rests(setup, domain);
            }
        }
        config
    }

    /// A chip for the function that takes each `domain[i]` to `values[i]`.
    pub fn construct(config: LookupConfig, domain: Vec<I18>, values: Vec<I18>) -> (chip: Self)
        requires
            domain@.len() == values@.len(),
        ensures
            chip.config == config,
            chip.domain@.len() == domain@.len(),
            forall|i: int|
                0 <= i < domain@.len() ==> #[trigger] chip.domain@[i] == (domain@[i], values@[i]),
    {
        let mut pairs: Vec<(I18, I18)> = Vec::new();
        let mut i: usize = 0;
        while i < domain.len()
            invariant
                i <= domain@.len(),
                domain@.len() == values@.len(),
                pairs@.len() == i,
                forall|j: int| 0 <= j < i ==> #[trigger] pairs@[j] == (domain@[j], values@[j]),
            decreases domain@.len() - i,
        {
            pairs.push((domain[i], values[i]));
            i += 1;
        }
        LookupChip { config, domain: pairs }
    }

    /// Loads the function's table. Called once in a synthesis.
    pub fn load_table(&self, layouter: &mut Layouter)
        requires
            self.config.wf(),
            (old(layouter).tables())(self.config.table_input.0 as int).len() == 0,
            (old(layouter).tables())(self.config.table_output.0 as int).len() == 0,
        ensures
            final(layouter).only_loads(*old(layouter)),
            final(layouter).trace() == self.config.table_trace(
                old(layouter).trace(),
                self.domain@,
            ),
            (final(layouter).tables())(self.config.table_input.0 as int) == input_rows(
                self.domain@,
            ),
            (final(layouter).tables())(self.config.table_output.0 as int) == output_rows(
                self.domain@,
            ),
            forall|t: int|
                t != self.config.table_input.0 && t != self.config.table_output.0
                    ==> #[trigger] (final(layouter).tables())(t) == (old(layouter).tables())(t),
    {
        let cfg = self.config;
        layouter.table();
        let n: usize = self.domain.len();
        let mut i: usize = 0;
        while i < n
            invariant
                i <= n,
                n == self.domain@.len(),
                cfg.wf(),
                layouter.only_loads(*old(layouter)),
                layouter.trace() == cfg.rows_trace(
                    old(layouter).trace(),
                    self.domain@,
                    i as int,
                ),
                (layouter.tables())(cfg.table_input.0 as int) == input_rows(self.domain@).take(
                    i as int,
                ),
                (layouter.tables())(cfg.table_output.0 as int) == output_rows(self.domain@).take(
                    i as int,
                ),
                forall|t: int|
                    t != cfg.table_input.0 && t != cfg.table_output.0 ==> #[trigger] (
                    layouter.tables())(t) == (old(layouter).tables())(t),
            decreases n - i,
        {
            layouter.assign_table_row(cfg.table_input, i, i64_to_fr(self.domain[i].0.raw()));
            layouter.assign_table_row(cfg.table_output, i, i64_to_fr(self.domain[i].1.raw()));
            proof {
                let xs = input_rows(self.domain@);
                let ys = output_rows(self.domain@);
                assert(xs.take(i as int).push(xs[i as int]) =~= xs.take(i + 1));
                assert(ys.take(i as int).push(ys[i as int]) =~= ys.take(i + 1));
            }
            i += 1;
        }
        layouter.assign_table_row(cfg.table_input, n, i64_to_fr(PAD_INPUT_RAW));
        layouter.assign_table_row(cfg.table_output, n, i64_to_fr(PAD_OUTPUT_RAW));
        proof {
            let xs = input_rows(self.domain@);
            let ys = output_rows(self.domain@);
            assert(xs.take(n as int).push(xs[n as int]) =~= xs);
            assert(ys.take(n as int).push(ys[n as int]) =~= ys);
        }
    }

    /// The function's value at a domain point, if the input is one.
    pub fn find(&self, input: I18) -> (res: Option<I18>)
        ensures
            res == value_at(self.domain@, input@),
    {
        let mut i: usize = 0;
        assert(self.domain@.skip(0) =~= self.domain@);
        while i < self.domain.len()
            invariant
                i <= self.domain@.len(),
                value_at(self.domain@, input@) == value_at(self.domain@.skip(i as int), input@),
            decreases self.domain@.len() - i,
        {
            proof {
                let rest = self.domain@.skip(i as int);
                assert(rest[0] == self.domain@[i as int]);
                assert(rest.drop_first() =~= self.domain@.skip(i + 1));
            }
            let pair: (I18, I18) = self.domain[i];
            if pair.0.raw() == input.raw() {
                return Some(pair.1);
            }
            i += 1;
        }
        assert(self.domain@.skip(i as int) =~= Seq::empty());
        None
    }

    /// Witnesses the input with the function's value in a looked-up row and returns the value
    /// with its cell. Nothing is laid out where the input is no point of the domain.
    pub fn assign(&self, layouter: &mut Layouter, input: I18) -> (res: Result<
        (I18, AssignedCell),
        LookupError,
    >)
        ensures
            match value_at(self.domain@, input@) {
                Some(y) => res matches Ok((v, c)) && v == y && {
                    let r = old(layouter).next();
                    &&& final(layouter).grows(*old(layouter))
                    &&& final(layouter).trace() == self.config.trace(old(layouter).trace())
                    &&& c.is(r, self.config.output, 0, y@ % modulus())
                    &&& final(layouter).has(c)
                    &&& forall|env: Assignment| #[trigger]
                        final(layouter).agrees(env) ==> env.at(r, self.config.input, 0) == input@
                            % modulus() && env.at(r, self.config.output, 0) == y@ % modulus()
                    &&& forall|setup: Setup, env: Assignment|
                        self.ok(setup) && #[trigger] final(layouter).sat(setup, env)
                            ==> is_function_row(
                            self.domain@,
                            centered(env.at(r, self.config.input, 0)),
                            centered(env.cell(c.cell)),
                        )
                    &&& forall|setup: Setup|
                        self.ok(setup) && self.config.input != self.config.output && old(
                            layouter,
                        ).honest(setup) ==> #[trigger] final(layouter).honest(setup)
                },
                None => *final(layouter) == *old(layouter) && (res matches Err(
                    LookupError::InputNotInDomain(x),
                ) && x == input),
            },
    {
        let output: I18 = match self.find(input) {
            Some(y) => y,
            None => {
                return Err(LookupError::InputNotInDomain(input));
            },
        };
        proof {
            lemma_value_at(self.domain@, input@);
        }
        let ghost base = *layouter;
        let (in_cell, out_cell): (AssignedCell, AssignedCell) = assign_lookup_row(
            &self.config,
            layouter,
            input,
            output,
        );
        proof {
            assert(layouter.has(in_cell));
            assert(layouter.has(out_cell));
            assert forall|setup: Setup, env: Assignment|
                self.ok(setup) && #[trigger] layouter.sat(setup, env) implies is_function_row(
                self.domain@,
                centered(env.at(base.next(), self.config.input, 0)),
                centered(env.cell(out_cell.cell)),
            ) by {
                assert(self.config.ok(setup, self.domain@));
            }
            assert forall|setup: Setup|
                self.ok(setup) && self.config.input != self.config.output && base.honest(
                    setup,
                ) implies #[trigger] layouter.honest(setup) by {
                assert(self.config.ok(setup, self.domain@));
            }
        }
        Ok((output, out_cell))
    }
}

} // verus!
