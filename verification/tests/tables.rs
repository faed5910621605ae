//! Lookups and the chips built on them.
use halo2_proofs::circuit::{
    Cell as ProverCell, Layouter as ProverLayouter, SimpleFloorPlanner, Value,
};
use halo2_proofs::dev::MockProver;
use halo2_proofs::plonk::{
    Advice, Circuit, Column as ProverColumn, ConstraintSystem as ProverSystem, Error,
    Expression as ProverExpression, Fixed, Instance, Selector as ProverSelector,
    TableColumn as ProverTable, VirtualCells,
};
use halo2_proofs::poly::Rotation;
use halo2curves::bn256::Fr as Scalar;
use zkie_core::chips::bridge::assign_unshift;
use zkie_core::chips::div::div_quotient_remainder;
use zkie_core::chips::eltwise::{assign_add_row, assign_mul_row};
use zkie_core::chips::embed_lookup::{EmbedLookupChip, EmbedLookupConfig, EmbedLookupError};
use zkie_core::chips::gelu::{GeluChip, GeluConfig};
use zkie_core::chips::layer_norm::{LayerNormChip, LayerNormConfig, LayerNormError};
use zkie_core::chips::lookup::{LookupChip, LookupConfig, LookupError};
use zkie_core::chips::patch_embed::{PatchEmbedChip, PatchEmbedConfig, PatchEmbedError};
use zkie_core::chips::reduce::ReduceMeanChip;
use zkie_core::chips::rms_norm::{RmsNormChip, RmsNormConfig, RmsNormError};
use zkie_core::chips::softmax::{SoftmaxChip, SoftmaxConfig, SoftmaxError};
use zkie_core::field::Fr;
use zkie_core::field_convert::{i128_to_fr, i64_to_fr, shifted_i64_witness};
use zkie_core::fixed_point::{requantize_mul, requantize_raw, I18, SCALE_18};
use zkie_core::layout::{Cell, Layouter, Op};
use zkie_core::plonk::{Column, ColumnKind, ConstraintSystem, Expression, Rule, TableColumn};

// ---- Laying the library's circuits out for the mock prover ----

/// A circuit of the library: its constraints and what it lays out.
trait Layout {
    type Config;

    fn configure(meta: &mut ConstraintSystem) -> Self::Config;

    fn synthesize(&self, config: Self::Config, layouter: &mut Layouter);
}

#[derive(Clone)]
struct Columns {
    advice: Vec<ProverColumn<Advice>>,
    fixed: Vec<ProverColumn<Fixed>>,
    instance: Vec<ProverColumn<Instance>>,
    tables: Vec<ProverTable>,
    selectors: Vec<ProverSelector>,
}

fn scalar(value: &Fr) -> Scalar {
    Scalar::from_raw(value.limbs())
}

fn polynomial(
    e: &Expression,
    cells: &mut VirtualCells<'_, Scalar>,
    columns: &Columns,
) -> ProverExpression<Scalar> {
    match e {
        Expression::Constant(c) => ProverExpression::Constant(scalar(c)),
        Expression::Query { column, rotation } => match column.kind {
            ColumnKind::Advice => {
                cells.query_advice(columns.advice[column.index], Rotation(*rotation))
            }
            ColumnKind::Fixed => {
                assert_eq!(*rotation, 0);
                cells.query_fixed(columns.fixed[column.index])
            }
            ColumnKind::Instance => {
                cells.query_instance(columns.instance[column.index], Rotation(*rotation))
            }
        },
        Expression::Sum(a, b) => polynomial(a, cells, columns) + polynomial(b, cells, columns),
        Expression::Difference(a, b) => {
            polynomial(a, cells, columns) - polynomial(b, cells, columns)
        }
        Expression::Product(a, b) => polynomial(a, cells, columns) * polynomial(b, cells, columns),
    }
}

fn declare(meta: &mut ProverSystem<Scalar>, cs: &ConstraintSystem) -> Columns {
    let mut columns = Columns {
        advice: (0..cs.advice).map(|_| meta.advice_column()).collect(),
        fixed: (0..cs.fixed).map(|_| meta.fixed_column()).collect(),
        instance: (0..cs.instance).map(|_| meta.instance_column()).collect(),
        tables: (0..cs.tables).map(|_| meta.lookup_table_column()).collect(),
        selectors: Vec::new(),
    };
    for column in &cs.equality {
        match column.kind {
            ColumnKind::Advice => meta.enable_equality(columns.advice[column.index]),
            ColumnKind::Fixed => meta.enable_equality(columns.fixed[column.index]),
            ColumnKind::Instance => meta.enable_equality(columns.instance[column.index]),
        }
    }
    for column in &cs.constants {
        meta.enable_constant(columns.fixed[column.index]);
    }
    for rule in &cs.rules {
        match rule {
            Rule::Gate(polynomials) => {
                let selector = meta.selector();
                meta.create_gate("gate", |cells| {
                    let on = cells.query_selector(selector);
                    polynomials
                        .iter()
                        .map(|p| on.clone() * polynomial(p, cells, &columns))
                        .collect::<Vec<_>>()
                });
                columns.selectors.push(selector);
            }
            Rule::Lookup(inputs) => {
                let selector = meta.complex_selector();
                meta.lookup(|cells| {
                    let on = cells.query_selector(selector);
                    let off = ProverExpression::Constant(Scalar::one()) - on.clone();
                    inputs
                        .iter()
                        .map(|input| {
                            let value = on.clone() * polynomial(&input.expression, cells, &columns)
                                + off.clone()
                                    * ProverExpression::Constant(scalar(&input.default));
                            (value, columns.tables[input.table.0])
                        })
                        .collect()
                });
                columns.selectors.push(selector);
            }
        }
    }
    columns
}

/// The steps of a table, or of a region with its name.
struct Group {
    table: bool,
    region: Option<usize>,
    ops: Vec<Op>,
}

fn groups(ops: &[Op]) -> Vec<Group> {
    let mut all: Vec<Group> = Vec::new();
    for (i, op) in ops.iter().enumerate() {
        let row = matches!(op, Op::TableRow { .. });
        match op {
            Op::Region => all.push(Group { table: false, region: Some(i), ops: vec![] }),
            Op::Table => all.push(Group { table: true, region: None, ops: vec![] }),
            _ => {
                if all.last().map_or(true, |g| g.table != row) {
                    all.push(Group { table: row, region: None, ops: vec![] });
                }
                all.last_mut().unwrap().ops.push(*op);
            }
        }
    }
    all
}

fn replay(
    log: &Layouter,
    columns: &Columns,
    mut layouter: impl ProverLayouter<Scalar>,
) -> Result<(), Error> {
    let witness = |v: &Fr| {
        if log.known {
            Value::known(scalar(v))
        } else {
            Value::unknown()
        }
    };
    let mut cells: Vec<(Cell, ProverCell)> = Vec::new();
    let find = |cells: &Vec<(Cell, ProverCell)>, c: &Cell| {
        cells[cells.iter().rposition(|(at, _)| at == c).expect("an assigned cell")].1
    };
    for group in groups(&log.ops) {
        if group.table {
            layouter.assign_table(
                || "table",
                |mut table| {
                    for op in &group.ops {
                        if let Op::TableRow { table: column, row, value } = op {
                            let v = Value::known(scalar(value));
                            table.assign_cell(|| "row", columns.tables[column.0], *row, || v)?;
                        }
                    }
                    Ok(())
                },
            )?;
            continue;
        }
        layouter.assign_region(
            || "region",
            |mut region| {
                for op in &group.ops {
                    match op {
                        Op::Enable { region: name, selector, offset } => {
                            assert_eq!(Some(*name), group.region);
                            columns.selectors[selector.0].enable(&mut region, *offset)?;
                        }
                        Op::Advice { cell, value } => {
                            assert_eq!(Some(cell.region), group.region);
                            let assigned = region.assign_advice(
                                || "advice",
                                columns.advice[cell.column.index],
                                cell.offset,
                                || witness(value),
                            )?;
                            cells.push((*cell, assigned.cell()));
                        }
                        Op::Fixed { cell, value } => {
                            assert_eq!(Some(cell.region), group.region);
                            let assigned = region.assign_fixed(
                                || "fixed",
                                columns.fixed[cell.column.index],
                                cell.offset,
                                || Value::known(scalar(value)),
                            )?;
                            cells.push((*cell, assigned.cell()));
                        }
                        Op::Equal { left, right } => {
                            region.constrain_equal(find(&cells, left), find(&cells, right))?;
                        }
                        Op::Constant { cell, value } => {
                            region.constrain_constant(find(&cells, cell), scalar(value))?;
                        }
                        _ => {}
                    }
                }
                Ok(())
            },
        )?;
    }
    for op in &log.ops {
        if let Op::Instance { cell, column, row } = op {
            layouter.constrain_instance(find(&cells, cell), columns.instance[column.index], *row)?;
        }
    }
    Ok(())
}

struct Replay<'a, L>(&'a L);

impl<'a, L: Layout> Circuit<Scalar> for Replay<'a, L> {
    type Config = Columns;
    type FloorPlanner = SimpleFloorPlanner;

    fn without_witnesses(&self) -> Self {
        Replay(self.0)
    }

    fn configure(meta: &mut ProverSystem<Scalar>) -> Columns {
        let mut cs = ConstraintSystem::new();
        L::configure(&mut cs);
        declare(meta, &cs)
    }

    fn synthesize(
        &self,
        columns: Columns,
        layouter: impl ProverLayouter<Scalar>,
    ) -> Result<(), Error> {
        let mut cs = ConstraintSystem::new();
        let config = L::configure(&mut cs);
        let mut log = Layouter::new(true);
        self.0.synthesize(config, &mut log);
        replay(&log, &columns, layouter)
    }
}

fn run<L: Layout>(k: u32, layout: &L, publics: &[Fr]) -> MockProver<Scalar> {
    let mut cs = ConstraintSystem::new();
    L::configure(&mut cs);
    let instance = if cs.instance == 0 {
        vec![]
    } else {
        vec![publics.iter().map(scalar).collect()]
    };
    MockProver::run(k, &Replay(layout), instance).unwrap()
}

// ---- Numbers ----

const ONE: f64 = 1_000_000_000_000_000_000.0;

fn i18(v: f64) -> I18 {
    let scaled = (v * ONE).round();
    assert!(scaled.is_finite() && scaled >= i64::MIN as f64 && scaled <= i64::MAX as f64);
    I18::from_raw(scaled as i64)
}

fn as_f64(x: &I18) -> f64 {
    x.raw() as f64 / ONE
}

fn vector(vs: &[f64]) -> Vec<I18> {
    vs.iter().map(|v| i18(*v)).collect()
}

fn raws(vs: &[I18]) -> Vec<i64> {
    vs.iter().map(|v| v.raw()).collect()
}

/// A grid of `n` points with the function's values, in fixed point.
fn build_domain(f: impl Fn(f64) -> f64, min: f64, max: f64, n: usize) -> (Vec<I18>, Vec<I18>) {
    let points: Vec<f64> = (0..n)
        .map(|i| min + (i as f64 / (n - 1) as f64) * (max - min))
        .collect();
    let values: Vec<f64> = points.iter().map(|x| f(*x)).collect();
    (vector(&points), vector(&values))
}

fn columns(meta: &mut ConstraintSystem, n: usize) -> Vec<Column> {
    (0..n).map(|_| meta.advice_column()).collect()
}

/// A row of a lookup with the given input and output.
fn lookup_row(layouter: &mut Layouter, lookup: &LookupConfig, input: I18, output: I18) {
    let region = layouter.region();
    layouter.enable(region, lookup.selector, 0);
    layouter.assign_advice(region, lookup.input, 0, i64_to_fr(input.raw()));
    layouter.assign_advice(region, lookup.output, 0, i64_to_fr(output.raw()));
}

fn link(layouter: &mut Layouter, pairs: &[(Cell, Cell)]) {
    layouter.region();
    for (left, right) in pairs {
        layouter.constrain_equal(*left, *right);
    }
}

fn off_by_one(x: I18) -> I18 {
    I18::from_raw(x.raw() + 1)
}

// ---- Lookups ----

fn square_domain() -> (Vec<I18>, Vec<I18>) {
    build_domain(|x| x * x, 0.0, 2.0, 16)
}

fn configure_lookup(meta: &mut ConstraintSystem) -> LookupConfig {
    let input = meta.advice_column();
    let output = meta.advice_column();
    LookupChip::configure(meta, input, output)
}

struct LookupTest {
    domain: Vec<I18>,
    values: Vec<I18>,
    input: I18,
}

impl Layout for LookupTest {
    type Config = LookupConfig;

    fn configure(meta: &mut ConstraintSystem) -> LookupConfig {
        configure_lookup(meta)
    }

    fn synthesize(&self, config: LookupConfig, layouter: &mut Layouter) {
        let chip = LookupChip::construct(config, self.domain.clone(), self.values.clone());
        chip.load_table(layouter);
        let (output, cell) = chip.assign(layouter, self.input).unwrap();
        let at = self.domain.iter().position(|x| *x == self.input).unwrap();
        assert_eq!(output, self.values[at]);
        assert_eq!(cell.value, i64_to_fr(output.raw()));
    }
}

#[test]
fn valid_lookup_at_domain_point_is_satisfied() {
    let (domain, values) = square_domain();
    run(6, &LookupTest { input: domain[5], domain, values }, &[]).assert_satisfied();
}

#[test]
fn valid_lookup_at_first_domain_point_is_satisfied() {
    let (domain, values) = square_domain();
    run(6, &LookupTest { input: domain[0], domain, values }, &[]).assert_satisfied();
}

/// A point halfway between the first two of a domain.
fn off_domain(domain: &[I18]) -> I18 {
    let step = (as_f64(&domain[1]) - as_f64(&domain[0])) / 2.0;
    i18(as_f64(&domain[0]) + step)
}

struct LookupGuard {
    domain: Vec<I18>,
    values: Vec<I18>,
    off_domain_input: I18,
}

impl Layout for LookupGuard {
    type Config = LookupConfig;

    fn configure(meta: &mut ConstraintSystem) -> LookupConfig {
        configure_lookup(meta)
    }

    fn synthesize(&self, config: LookupConfig, layouter: &mut Layouter) {
        let chip = LookupChip::construct(config, self.domain.clone(), self.values.clone());
        chip.load_table(layouter);
        match chip.assign(layouter, self.off_domain_input) {
            Err(LookupError::InputNotInDomain(input)) => assert_eq!(input, self.off_domain_input),
            other => panic!("expected InputNotInDomain, got {other:?}"),
        }
    }
}

#[test]
fn assign_rejects_input_not_in_domain_at_the_rust_level() {
    let (domain, values) = square_domain();
    let off_domain_input = off_domain(&domain);
    run(6, &LookupGuard { domain, values, off_domain_input }, &[]).assert_satisfied();
}

struct ForgedLookup {
    domain: Vec<I18>,
    values: Vec<I18>,
    input: I18,
    output: I18,
}

impl Layout for ForgedLookup {
    type Config = LookupConfig;

    fn configure(meta: &mut ConstraintSystem) -> LookupConfig {
        configure_lookup(meta)
    }

    fn synthesize(&self, config: LookupConfig, layouter: &mut Layouter) {
        let chip = LookupChip::construct(config, self.domain.clone(), self.values.clone());
        chip.load_table(layouter);
        lookup_row(layouter, &config, self.input, self.output);
    }
}

#[test]
fn forged_output_for_a_valid_input_is_rejected() {
    let (domain, values) = square_domain();
    let input = domain[5];
    let output = off_by_one(values[5]);
    let circuit = ForgedLookup { domain, values, input, output };
    assert!(run(6, &circuit, &[]).verify().is_err());
}

#[test]
fn forged_input_not_in_domain_is_rejected() {
    let (domain, values) = square_domain();
    let input = off_domain(&domain);
    let output = values[0];
    let circuit = ForgedLookup { domain, values, input, output };
    assert!(run(6, &circuit, &[]).verify().is_err());
}

#[test]
fn domain_not_mapping_zero_to_zero_is_still_satisfied() {
    // Rows that no lookup uses hold zeros; the table need not map 0 to 0 for them.
    let domain: Vec<I18> = (1..=16).map(I18::from_raw).collect();
    let values: Vec<I18> = domain.iter().map(|x| I18::from_raw(x.raw() * 10)).collect();
    run(6, &LookupTest { input: domain[3], domain, values }, &[]).assert_satisfied();
}

#[test]
fn a_repeated_point_has_its_first_value() {
    let mut meta = ConstraintSystem::new();
    let config = configure_lookup(&mut meta);
    let point = I18::from_raw(5);
    let chip = LookupChip::construct(
        config,
        vec![point, point],
        vec![I18::from_raw(7), I18::from_raw(8)],
    );
    assert_eq!(chip.find(point), Some(I18::from_raw(7)));
    assert_eq!(chip.find(I18::from_raw(6)), None);
    let e = chip.assign(&mut Layouter::new(true), I18::from_raw(6)).unwrap_err();
    assert!(e.message().contains('6'));
}

/// The values that a record gives to a column, in order.
fn recorded(layouter: &Layouter, column: Column) -> Vec<Fr> {
    layouter
        .ops
        .iter()
        .filter_map(|op| match op {
            Op::Advice { cell, value } if cell.column == column => Some(*value),
            _ => None,
        })
        .collect()
}

#[test]
fn a_lookup_row_holds_its_input_and_its_output() {
    let mut meta = ConstraintSystem::new();
    let cs = columns(&mut meta, 2);
    let config = LookupChip::configure(&mut meta, cs[0], cs[1]);
    let chip = LookupChip::construct(
        config,
        vec![I18::from_raw(5), I18::from_raw(-6)],
        vec![I18::from_raw(7), I18::from_raw(8)],
    );
    let mut layouter = Layouter::new(true);
    assert_eq!(chip.assign(&mut layouter, I18::from_raw(-6)).unwrap().0, I18::from_raw(8));
    assert_eq!(recorded(&layouter, cs[0]), vec![i64_to_fr(-6)]);
    assert_eq!(recorded(&layouter, cs[1]), vec![i64_to_fr(8)]);
}

/// A lookup into the table of one, two and three that no row turns on.
struct IdleLookup<const DEFAULT: u64>;

impl<const DEFAULT: u64> Layout for IdleLookup<DEFAULT> {
    type Config = TableColumn;

    fn configure(meta: &mut ConstraintSystem) -> TableColumn {
        let column = meta.advice_column();
        let table = meta.lookup_table_column();
        meta.lookup(Expression::cell(column), Fr::from_u64(DEFAULT), table);
        table
    }

    fn synthesize(&self, table: TableColumn, layouter: &mut Layouter) {
        layouter.table();
        for (row, value) in [1u64, 2, 3].into_iter().enumerate() {
            layouter.assign_table_row(table, row, Fr::from_u64(value));
        }
    }
}

#[test]
fn a_lookup_holds_where_it_is_off_if_its_default_is_a_row_of_the_table() {
    run(5, &IdleLookup::<2>, &[]).assert_satisfied();
    assert!(run(5, &IdleLookup::<0>, &[]).verify().is_err());
}

// ---- Embedding tables ----

const TABLE_SIZE: usize = 4;
const EMBED_DIM: usize = 3;

/// No entry of the table is zero.
fn sample_table() -> Vec<Vec<I18>> {
    (0..TABLE_SIZE)
        .map(|i| {
            (0..EMBED_DIM)
                .map(|j| i18(((i * EMBED_DIM + j) as f64 + 1.0) * 0.01))
                .collect()
        })
        .collect()
}

fn configure_embed(meta: &mut ConstraintSystem) -> EmbedLookupConfig {
    let index = meta.advice_column();
    let outputs = columns(meta, EMBED_DIM);
    EmbedLookupChip::configure(meta, index, &outputs, TABLE_SIZE, EMBED_DIM)
}

struct EmbedTest {
    table: Vec<Vec<I18>>,
    index: usize,
}

impl Layout for EmbedTest {
    type Config = EmbedLookupConfig;

    fn configure(meta: &mut ConstraintSystem) -> EmbedLookupConfig {
        configure_embed(meta)
    }

    fn synthesize(&self, config: EmbedLookupConfig, layouter: &mut Layouter) {
        let chip = EmbedLookupChip::construct(config);
        chip.load_table(layouter, &self.table).unwrap();
        let embedding = chip.assign(layouter, self.index, &self.table).unwrap();
        assert_eq!(embedding, self.table[self.index]);
    }
}

#[test]
fn embed_lookup_returns_expected_row_at_a_given_index() {
    for index in 0..TABLE_SIZE {
        run(8, &EmbedTest { table: sample_table(), index }, &[]).assert_satisfied();
    }
}

#[test]
fn embed_lookup_at_index_zero_with_nonzero_row_is_satisfied() {
    let table = sample_table();
    assert!(table[0].iter().any(|v| v.raw() != 0));
    run(8, &EmbedTest { table, index: 0 }, &[]).assert_satisfied();
}

#[test]
fn embedding_rows_hold_the_index_and_the_entries_of_its_row() {
    let mut meta = ConstraintSystem::new();
    let config = configure_embed(&mut meta);
    let lookups: Vec<(Column, Column)> =
        config.lookups.iter().map(|c| (c.input, c.output)).collect();
    let chip = EmbedLookupChip::construct(config);
    let table = sample_table();
    let mut layouter = Layouter::new(true);
    let (row, cells) = chip.assign_cells(&mut layouter, 2, &table).unwrap();
    assert_eq!(row, table[2]);
    for (d, (index, entry)) in cells.iter().enumerate() {
        assert_eq!((index.cell.column, entry.cell.column), lookups[d]);
        assert_eq!((index.value, entry.value), (Fr::from_u64(2), i64_to_fr(table[2][d].raw())));
        assert_eq!(recorded(&layouter, lookups[d].0)[d], Fr::from_u64(2));
        assert_eq!(recorded(&layouter, lookups[d].1), vec![i64_to_fr(table[2][d].raw())]);
    }
}

fn embed_error(index: usize, table: &Vec<Vec<I18>>) -> EmbedLookupError {
    let mut meta = ConstraintSystem::new();
    let chip = EmbedLookupChip::construct(configure_embed(&mut meta));
    let mut layouter = Layouter::new(true);
    chip.assign(&mut layouter, index, table).expect_err("assign must be refused")
}

#[test]
fn assign_rejects_out_of_range_index_at_the_rust_level() {
    match embed_error(TABLE_SIZE, &sample_table()) {
        EmbedLookupError::IndexOutOfRange { index, table_size } => {
            assert_eq!(index, TABLE_SIZE);
            assert_eq!(table_size, TABLE_SIZE);
        }
        other => panic!("expected IndexOutOfRange, got {other:?}"),
    }
}

#[test]
fn assign_rejects_wrong_table_row_count() {
    let mut table = sample_table();
    table.pop();
    match embed_error(0, &table) {
        EmbedLookupError::TableRowCountMismatch { expected, got } => {
            assert_eq!(expected, TABLE_SIZE);
            assert_eq!(got, TABLE_SIZE - 1);
        }
        other => panic!("expected TableRowCountMismatch, got {other:?}"),
    }
}

#[test]
fn assign_rejects_wrong_table_row_length() {
    let mut table = sample_table();
    table[1].pop();
    match embed_error(0, &table) {
        EmbedLookupError::TableRowLengthMismatch { row, expected, got } => {
            assert_eq!(row, 1);
            assert_eq!(expected, EMBED_DIM);
            assert_eq!(got, EMBED_DIM - 1);
        }
        other => panic!("expected TableRowLengthMismatch, got {other:?}"),
    }
}

struct ForgedEmbed {
    table: Vec<Vec<I18>>,
}

impl Layout for ForgedEmbed {
    type Config = EmbedLookupConfig;

    fn configure(meta: &mut ConstraintSystem) -> EmbedLookupConfig {
        configure_embed(meta)
    }

    fn synthesize(&self, config: EmbedLookupConfig, layouter: &mut Layouter) {
        let forged_dim = 1;
        let query = 2;
        let lookup = config.lookups[forged_dim];
        let chip = EmbedLookupChip::construct(config);
        chip.load_table(layouter, &self.table).unwrap();
        let forged = off_by_one(self.table[query][forged_dim]);
        lookup_row(layouter, &lookup, I18::from_raw(query as i64), forged);
    }
}

#[test]
fn embed_lookup_forged_output_for_one_dimension_is_rejected() {
    assert!(run(8, &ForgedEmbed { table: sample_table() }, &[]).verify().is_err());
}

// ---- Activations ----

/// The error function by a polynomial of five terms.
fn erf(x: f64) -> f64 {
    let sign = if x < 0.0 { -1.0 } else { 1.0 };
    let t = 1.0 / (1.0 + 0.3275911 * x.abs());
    let a = [0.254829592, -0.284496736, 1.421413741, -1.453152027, 1.061405429];
    let poly = t * (a[0] + t * (a[1] + t * (a[2] + t * (a[3] + t * a[4]))));
    sign * (1.0 - poly * (-x * x).exp())
}

fn gelu(x: f64) -> f64 {
    0.5 * x * (1.0 + erf(x / std::f64::consts::SQRT_2))
}

fn gelu_domain() -> (Vec<I18>, Vec<I18>) {
    build_domain(gelu, -6.0, 6.0, 33)
}

struct GeluTest {
    input: I18,
    forged_output: Option<I18>,
}

impl Layout for GeluTest {
    type Config = GeluConfig;

    fn configure(meta: &mut ConstraintSystem) -> GeluConfig {
        let input = meta.advice_column();
        let output = meta.advice_column();
        GeluChip::configure(meta, input, output)
    }

    fn synthesize(&self, config: GeluConfig, layouter: &mut Layouter) {
        let (domain, values) = gelu_domain();
        let chip = GeluChip::construct(config, domain.clone(), values.clone());
        chip.load_table(layouter);
        match self.forged_output {
            None => {
                let output = chip.assign(layouter, self.input).unwrap();
                let at = domain.iter().position(|x| *x == self.input).unwrap();
                assert_eq!(output, values[at]);
            }
            Some(output) => {
                let region = layouter.region();
                layouter.enable(region, config.selector(), 0);
                let input = i64_to_fr(self.input.raw());
                layouter.assign_advice(region, config.input_column(), 0, input);
                let output = i64_to_fr(output.raw());
                layouter.assign_advice(region, config.output_column(), 0, output);
            }
        }
    }
}

#[test]
fn valid_gelu_lookup_at_domain_point_is_satisfied_and_close_to_true_gelu() {
    let (domain, values) = gelu_domain();
    let input = domain[20];
    run(7, &GeluTest { input, forged_output: None }, &[]).assert_satisfied();
    let step = (as_f64(&domain[1]) - as_f64(&domain[0])).abs();
    assert!((as_f64(&values[20]) - gelu(as_f64(&input))).abs() < step);
}

#[test]
fn valid_gelu_lookup_at_first_domain_point_is_satisfied() {
    let (domain, _) = gelu_domain();
    run(7, &GeluTest { input: domain[0], forged_output: None }, &[]).assert_satisfied();
}

#[test]
fn forged_output_for_a_valid_gelu_input_is_rejected() {
    let (domain, values) = gelu_domain();
    let circuit = GeluTest { input: domain[20], forged_output: Some(off_by_one(values[20])) };
    assert!(run(7, &circuit, &[]).verify().is_err());
}

// ---- Patch embedding ----

const PATCH_LEN: usize = 3;
const PATCH_DIM: usize = 2;

fn configure_patch(meta: &mut ConstraintSystem) -> PatchEmbedConfig {
    let c = columns(meta, 7);
    PatchEmbedChip::configure(
        meta, c[0], c[1], c[2], c[3], c[4], c[5], c[6], PATCH_LEN, PATCH_DIM,
    )
}

fn patch_and_weights() -> (Vec<I18>, Vec<Vec<I18>>) {
    (
        vector(&[1.0, 2.0, -1.5]),
        vec![vector(&[1.0, 0.0, 0.0]), vector(&[0.5, 0.5, 1.0])],
    )
}

fn raw_dot(a: &[I18], b: &[I18]) -> i128 {
    a.iter().zip(b.iter()).map(|(x, y)| (x.raw() as i128) * (y.raw() as i128)).sum()
}

fn expected_dot(patch: &[I18], column: &[I18]) -> I18 {
    requantize_raw(raw_dot(patch, column)).unwrap().0
}

struct PatchTest {
    patch: Vec<I18>,
    weights: Vec<Vec<I18>>,
}

impl Layout for PatchTest {
    type Config = PatchEmbedConfig;

    fn configure(meta: &mut ConstraintSystem) -> PatchEmbedConfig {
        configure_patch(meta)
    }

    fn synthesize(&self, config: PatchEmbedConfig, layouter: &mut Layouter) {
        let chip = PatchEmbedChip::construct(config);
        let outputs = chip.assign(layouter, &self.patch, &self.weights).unwrap();
        let expected: Vec<I18> =
            self.weights.iter().map(|w| expected_dot(&self.patch, w)).collect();
        assert_eq!(outputs, expected);
    }
}

#[test]
fn patch_embed_projects_patch_through_weight_matrix() {
    let (patch, weights) = patch_and_weights();
    let expected: Vec<I18> = weights.iter().map(|w| expected_dot(&patch, w)).collect();
    run(11, &PatchTest { patch, weights }, &[]).assert_satisfied();
    assert!((as_f64(&expected[0]) - 1.0).abs() < 1e-9);
    assert!((as_f64(&expected[1]) - 0.0).abs() < 1e-9);
}

#[test]
fn patch_embed_all_zero_is_satisfied() {
    let patch = vec![I18::from_raw(0); PATCH_LEN];
    let weights = vec![vec![I18::from_raw(0); PATCH_LEN]; PATCH_DIM];
    run(11, &PatchTest { patch, weights }, &[]).assert_satisfied();
}

struct TwoPatches;

impl Layout for TwoPatches {
    type Config = PatchEmbedConfig;

    fn configure(meta: &mut ConstraintSystem) -> PatchEmbedConfig {
        configure_patch(meta)
    }

    fn synthesize(&self, config: PatchEmbedConfig, layouter: &mut Layouter) {
        let chip = PatchEmbedChip::construct(config);
        let (patch, weights) = patch_and_weights();
        let first = chip.assign(layouter, &patch, &weights).unwrap();
        let second = chip.assign(layouter, &vector(&[0.5, 0.0, 0.0]), &weights).unwrap();
        assert_eq!(raws(&first), vec![1_000_000_000_000_000_000, 0]);
        assert_eq!(raws(&second), vec![500_000_000_000_000_000, 250_000_000_000_000_000]);
    }
}

#[test]
fn two_patches_share_one_synthesis() {
    run(12, &TwoPatches, &[]).assert_satisfied();
}

fn patch_error(patch: &Vec<I18>, weights: &Vec<Vec<I18>>) -> PatchEmbedError {
    let mut meta = ConstraintSystem::new();
    let chip = PatchEmbedChip::construct(configure_patch(&mut meta));
    let mut layouter = Layouter::new(true);
    chip.assign(&mut layouter, patch, weights).expect_err("assign must be refused")
}

#[test]
fn assign_rejects_wrong_patch_length() {
    let patch = vec![I18::from_raw(1); PATCH_LEN - 1];
    let weights = vec![vec![I18::from_raw(1); PATCH_LEN]; PATCH_DIM];
    match patch_error(&patch, &weights) {
        PatchEmbedError::PatchLengthMismatch { expected, got } => {
            assert_eq!(expected, PATCH_LEN);
            assert_eq!(got, PATCH_LEN - 1);
        }
        other => panic!("expected PatchLengthMismatch, got {other:?}"),
    }
}

#[test]
fn assign_rejects_wrong_weight_count() {
    let patch = vec![I18::from_raw(1); PATCH_LEN];
    let weights = vec![vec![I18::from_raw(1); PATCH_LEN]; PATCH_DIM - 1];
    match patch_error(&patch, &weights) {
        PatchEmbedError::WeightCountMismatch { expected, got } => {
            assert_eq!(expected, PATCH_DIM);
            assert_eq!(got, PATCH_DIM - 1);
        }
        other => panic!("expected WeightCountMismatch, got {other:?}"),
    }
}

#[test]
fn assign_rejects_wrong_weight_column_length() {
    let patch = vec![I18::from_raw(1); PATCH_LEN];
    let mut weights = vec![vec![I18::from_raw(1); PATCH_LEN]; PATCH_DIM];
    weights[1] = vec![I18::from_raw(1); PATCH_LEN - 1];
    match patch_error(&patch, &weights) {
        PatchEmbedError::WeightLengthMismatch { dim, expected, got } => {
            assert_eq!(dim, 1);
            assert_eq!(expected, PATCH_LEN);
            assert_eq!(got, PATCH_LEN - 1);
        }
        other => panic!("expected WeightLengthMismatch, got {other:?}"),
    }
}

#[test]
fn a_projection_out_of_range_names_its_dimension() {
    let patch = vector(&[8.0, 0.0, 0.0]);
    let weights = vec![vector(&[1.0, 0.0, 0.0]), vector(&[8.0, 0.0, 0.0])];
    let e = patch_error(&patch, &weights);
    assert!(matches!(e, PatchEmbedError::DotProduct { dim: 1, .. }));
}

struct ForgedPatch {
    patch: Vec<I18>,
    weights: Vec<Vec<I18>>,
}

impl Layout for ForgedPatch {
    type Config = PatchEmbedConfig;

    fn configure(meta: &mut ConstraintSystem) -> PatchEmbedConfig {
        configure_patch(meta)
    }

    fn synthesize(&self, config: PatchEmbedConfig, layouter: &mut Layouter) {
        let dot = config.dot;
        for (dim, column) in self.weights.iter().enumerate() {
            let region = layouter.region();
            let mut acc = 0i128;
            for i in 0..PATCH_LEN {
                let (a, b) = (self.patch[i].raw(), column[i].raw());
                layouter.assign_advice(region, dot.a, i, i64_to_fr(a));
                layouter.assign_advice(region, dot.b, i, i64_to_fr(b));
                acc += (a as i128) * (b as i128);
                layouter.assign_advice(region, dot.accumulator, i, i128_to_fr(acc));
                layouter.enable(region, if i == 0 { dot.s_acc_start } else { dot.s_acc_step }, i);
            }
            let (q, r) = requantize_raw(acc).unwrap();
            // The second dimension's quotient is off by one.
            let q = if dim == 1 { q.raw() + 1 } else { q.raw() };
            let last = PATCH_LEN - 1;
            layouter.enable(region, dot.s_final, last);
            layouter.enable(region, dot.s_slack, last);
            layouter.assign_advice(region, dot.q, last, shifted_i64_witness(q).0);
            layouter.assign_advice(region, dot.r, last, i128_to_fr(r));
            layouter.assign_advice(region, dot.slack, last, i128_to_fr(SCALE_18 - 1 - r));
        }
    }
}

#[test]
fn patch_embed_forged_output_for_one_dimension_is_rejected() {
    let (patch, weights) = patch_and_weights();
    assert!(run(11, &ForgedPatch { patch, weights }, &[]).verify().is_err());
}

// ---- Softmax ----

const SOFTMAX_K: usize = 4;

fn exp_domain() -> (Vec<I18>, Vec<I18>) {
    build_domain(f64::exp, -4.0, 0.0, 33)
}

fn expected_softmax(inputs: &[I18]) -> Vec<I18> {
    let (domain, values) = exp_domain();
    let exps: Vec<I18> = inputs
        .iter()
        .map(|x| values[domain.iter().position(|d| d == x).unwrap()])
        .collect();
    let sum = I18::from_raw(raws(&exps).iter().sum());
    exps.iter().map(|e| div_quotient_remainder(*e, sum).unwrap().0).collect()
}

fn configure_softmax(meta: &mut ConstraintSystem) -> SoftmaxConfig {
    let c = columns(meta, 12);
    SoftmaxChip::configure(
        meta, c[0], c[1], c[2], c[3], c[4], c[5], c[6], c[7], c[8], c[9], c[10], c[11], SOFTMAX_K,
    )
}

struct SoftmaxTest {
    inputs: Vec<I18>,
}

impl Layout for SoftmaxTest {
    type Config = SoftmaxConfig;

    fn configure(meta: &mut ConstraintSystem) -> SoftmaxConfig {
        configure_softmax(meta)
    }

    fn synthesize(&self, config: SoftmaxConfig, layouter: &mut Layouter) {
        let (domain, values) = exp_domain();
        let chip = SoftmaxChip::construct(config, domain, values);
        chip.load_table(layouter);
        let outputs = chip.assign(layouter, &self.inputs).unwrap();
        assert_eq!(outputs, expected_softmax(&self.inputs));
    }
}

#[test]
fn softmax_of_four_inputs_is_satisfied_and_close_to_true_softmax() {
    let (domain, _) = exp_domain();
    let inputs: Vec<I18> = [0usize, 12, 20, 32].iter().map(|i| domain[*i]).collect();
    run(14, &SoftmaxTest { inputs: inputs.clone() }, &[]).assert_satisfied();

    let outputs = expected_softmax(&inputs);
    let exps: Vec<f64> = inputs.iter().map(|x| as_f64(x).exp()).collect();
    let total: f64 = exps.iter().sum();
    let step = (as_f64(&domain[1]) - as_f64(&domain[0])).abs();
    let tolerance = step.max(1e-6);
    for (output, e) in outputs.iter().zip(exps.iter()) {
        assert!((as_f64(output) - e / total).abs() < tolerance);
    }
    let output_sum: f64 = outputs.iter().map(as_f64).sum();
    assert!((output_sum - 1.0).abs() < tolerance);
}

fn softmax_error(inputs: &Vec<I18>) -> SoftmaxError {
    let mut meta = ConstraintSystem::new();
    let (domain, values) = exp_domain();
    let chip = SoftmaxChip::construct(configure_softmax(&mut meta), domain, values);
    let mut layouter = Layouter::new(true);
    chip.load_table(&mut layouter);
    chip.assign(&mut layouter, inputs).expect_err("assign must be refused")
}

#[test]
fn softmax_rejects_wrong_input_count() {
    let (domain, _) = exp_domain();
    match softmax_error(&domain[0..SOFTMAX_K - 1].to_vec()) {
        SoftmaxError::InputCountMismatch { expected, got } => {
            assert_eq!(expected, SOFTMAX_K);
            assert_eq!(got, SOFTMAX_K - 1);
        }
        other => panic!("expected InputCountMismatch, got {other:?}"),
    }
}

#[test]
fn softmax_refuses_an_input_outside_its_table() {
    let (domain, _) = exp_domain();
    let inputs = vec![domain[0], domain[1], I18::from_raw(1), domain[2]];
    let e = softmax_error(&inputs);
    assert!(!e.message().is_empty());
    assert!(!matches!(e, SoftmaxError::InputCountMismatch { .. }));
}

struct ForgedExp {
    input: I18,
    forged_output: I18,
}

impl Layout for ForgedExp {
    type Config = SoftmaxConfig;

    fn configure(meta: &mut ConstraintSystem) -> SoftmaxConfig {
        configure_softmax(meta)
    }

    fn synthesize(&self, config: SoftmaxConfig, layouter: &mut Layouter) {
        let (domain, values) = exp_domain();
        let chip = SoftmaxChip::construct(config, domain, values);
        chip.load_table(layouter);
        lookup_row(layouter, &config.lookup, self.input, self.forged_output);
    }
}

#[test]
fn forged_exp_lookup_output_within_softmax_config_is_rejected() {
    let (domain, values) = exp_domain();
    let circuit = ForgedExp { input: domain[20], forged_output: off_by_one(values[20]) };
    assert!(run(14, &circuit, &[]).verify().is_err());
}

// ---- Normalizations ----

const NORM_K: usize = 4;

fn rsqrt(x: f64) -> f64 {
    1.0 / x.sqrt()
}

/// The 40th point is 1.26, what the sample inputs look up.
fn rsqrt_domain() -> (Vec<I18>, Vec<I18>) {
    build_domain(rsqrt, 0.1, 3.0, 101)
}

fn sample_inputs() -> Vec<I18> {
    vector(&[-1.5, -0.5, 0.5, 1.5])
}

fn configure_layer_norm(meta: &mut ConstraintSystem) -> LayerNormConfig {
    let c = columns(meta, 21);
    LayerNormChip::configure(
        meta, c[0], c[1], c[2], c[3], c[4], c[5], c[6], c[7], c[8], c[9], c[10], c[11], c[12],
        c[13], c[14], c[15], c[16], c[17], c[18], c[19], c[20], NORM_K, i18(0.25), i18(0.01),
    )
}

fn layer_norm_chip(config: LayerNormConfig) -> LayerNormChip {
    let (domain, values) = rsqrt_domain();
    LayerNormChip::construct(config, domain, values)
}

struct LayerNormTest {
    inputs: Vec<I18>,
    forged: bool,
}

/// The normalization, computed step by step.
fn expected_layer_norm(inputs: &[I18]) -> Vec<I18> {
    let reciprocal = i18(1.0 / (NORM_K as f64));
    let sum_raw: i64 = raws(inputs).iter().sum();
    let (mean, _) = requantize_mul(I18::from_raw(sum_raw), reciprocal).unwrap();
    let diffs: Vec<I18> = inputs.iter().map(|x| I18::from_raw(x.raw() - mean.raw())).collect();
    let squares: Vec<I18> = diffs.iter().map(|d| requantize_mul(*d, *d).unwrap().0).collect();
    let sq_sum: i64 = raws(&squares).iter().sum();
    let (variance, _) = requantize_mul(I18::from_raw(sq_sum), reciprocal).unwrap();
    let point = I18::from_raw(variance.raw() + i18(10.0 / 1000.0).raw());
    assert_eq!(point.raw(), 1_260_000_000_000_000_000);
    let root = i18(rsqrt(as_f64(&point)));
    diffs.iter().map(|d| requantize_mul(*d, root).unwrap().0).collect()
}

impl Layout for LayerNormTest {
    type Config = LayerNormConfig;

    fn configure(meta: &mut ConstraintSystem) -> LayerNormConfig {
        configure_layer_norm(meta)
    }

    fn synthesize(&self, config: LayerNormConfig, layouter: &mut Layouter) {
        let rsqrt_config = config.rsqrt;
        let chip = layer_norm_chip(config);
        chip.load_table(layouter);
        let outputs = chip.assign(layouter, &self.inputs).unwrap();
        assert_eq!(outputs, expected_layer_norm(&self.inputs));
        if self.forged {
            let (domain, values) = rsqrt_domain();
            let region = layouter.region();
            layouter.enable(region, rsqrt_config.selector(), 0);
            let input = i64_to_fr(domain[40].raw());
            layouter.assign_advice(region, rsqrt_config.input_column(), 0, input);
            let output = i64_to_fr(values[40].raw() + 1);
            layouter.assign_advice(region, rsqrt_config.output_column(), 0, output);
        }
    }
}

#[test]
fn layer_norm_of_four_symmetric_inputs_is_satisfied_and_close_to_true_layer_norm() {
    let inputs = sample_inputs();
    let circuit = LayerNormTest { inputs: inputs.clone(), forged: false };
    run(12, &circuit, &[]).assert_satisfied();

    let xs: Vec<f64> = inputs.iter().map(as_f64).collect();
    let mean = xs.iter().sum::<f64>() / (NORM_K as f64);
    let variance = xs.iter().map(|x| (x - mean).powi(2)).sum::<f64>() / (NORM_K as f64);
    let root = rsqrt(variance + 0.01);
    for (expected, x) in expected_layer_norm(&inputs).iter().zip(xs.iter()) {
        assert!((as_f64(expected) - (x - mean) * root).abs() < 1e-6);
    }
}

#[test]
fn layer_norm_assign_rejects_wrong_input_count_at_the_rust_level() {
    let mut meta = ConstraintSystem::new();
    let chip = layer_norm_chip(configure_layer_norm(&mut meta));
    let mut layouter = Layouter::new(true);
    chip.load_table(&mut layouter);
    let mut inputs = sample_inputs();
    inputs.pop();
    match chip.assign(&mut layouter, &inputs) {
        Err(LayerNormError::InputCountMismatch { expected, got }) => {
            assert_eq!(expected, NORM_K);
            assert_eq!(got, NORM_K - 1);
        }
        other => panic!("expected InputCountMismatch, got {other:?}"),
    }
}

#[test]
fn layer_norm_refuses_a_variance_outside_its_table() {
    let mut meta = ConstraintSystem::new();
    let chip = layer_norm_chip(configure_layer_norm(&mut meta));
    let mut layouter = Layouter::new(true);
    let e = chip.assign(&mut layouter, &vector(&[0.0, 0.0, 0.0, 0.0]));
    // Zero variance looks up the offset alone.
    assert!(matches!(
        e,
        Err(LayerNormError::Rsqrt(LookupError::InputNotInDomain(x))) if x == i18(0.01)
    ));
}

#[test]
fn forged_rsqrt_output_within_full_layer_norm_circuit_is_rejected() {
    let circuit = LayerNormTest { inputs: sample_inputs(), forged: true };
    assert!(run(12, &circuit, &[]).verify().is_err());
}

struct MismatchedSquare {
    inputs: Vec<I18>,
}

impl Layout for MismatchedSquare {
    type Config = LayerNormConfig;

    fn configure(meta: &mut ConstraintSystem) -> LayerNormConfig {
        configure_layer_norm(meta)
    }

    fn synthesize(&self, config: LayerNormConfig, layouter: &mut Layouter) {
        layer_norm_chip(config).load_table(layouter);
        let mean_chip = ReduceMeanChip::construct(config.reduce_mean);
        let (mean, _, _) = mean_chip.assign(layouter, &self.inputs);
        let diff = assign_add_row(&config.add, layouter, self.inputs[0].raw(), -mean.raw());
        let diff_raw = self.inputs[0].raw() - mean.raw();
        let unshifted = assign_unshift(&config.unshift, layouter, diff.c, diff_raw);
        // A decoy is squared in place of the difference, but is linked to it.
        let decoy = I18::from_raw(diff_raw + 1);
        let square = assign_mul_row(&config.mul, layouter, decoy, decoy);
        link(
            layouter,
            &[(square.a.cell, unshifted.cell), (square.b.cell, unshifted.cell)],
        );
    }
}

#[test]
fn diff_to_square_constrain_equal_rejects_mismatched_decoy_value() {
    assert!(
        run(12, &MismatchedSquare { inputs: sample_inputs() }, &[]).verify().is_err(),
        "a squared decoy tied to the difference must be rejected"
    );
}

fn sample_weight() -> Vec<I18> {
    vector(&[1.0, 2.0, 0.5, -1.0])
}

fn expected_rms_norm() -> Vec<f64> {
    let xs = [-1.5_f64, -0.5, 0.5, 1.5];
    let ws = [1.0_f64, 2.0, 0.5, -1.0];
    let mean_sq = xs.iter().map(|x| x * x).sum::<f64>() / xs.len() as f64;
    let root = rsqrt(mean_sq + 0.01);
    xs.iter().zip(ws.iter()).map(|(x, w)| x * root * w).collect()
}

fn configure_rms_norm(meta: &mut ConstraintSystem) -> RmsNormConfig {
    let c = columns(meta, 21);
    RmsNormChip::configure(
        meta, c[0], c[1], c[2], c[3], c[4], c[5], c[6], c[7], c[8], c[9], c[10], c[11], c[12],
        c[13], c[14], c[15], c[16], c[17], c[18], c[19], c[20], NORM_K, i18(0.25), i18(0.01),
    )
}

fn rms_norm_chip(config: RmsNormConfig) -> RmsNormChip {
    let (domain, values) = rsqrt_domain();
    RmsNormChip::construct(config, domain, values)
}

struct RmsNormTest {
    inputs: Vec<I18>,
    weight: Vec<I18>,
}

impl Layout for RmsNormTest {
    type Config = RmsNormConfig;

    fn configure(meta: &mut ConstraintSystem) -> RmsNormConfig {
        configure_rms_norm(meta)
    }

    fn synthesize(&self, config: RmsNormConfig, layouter: &mut Layouter) {
        let chip = rms_norm_chip(config);
        chip.load_table(layouter);
        assert!(chip.in_range(&self.inputs, &self.weight));
        let got = chip.assign(layouter, &self.inputs, &self.weight).unwrap().outputs;
        let expected = expected_rms_norm();
        assert_eq!(got.len(), expected.len());
        for (g, e) in got.iter().zip(expected.iter()) {
            let diff = (as_f64(g) - e).abs();
            assert!(diff < 1e-3, "got {}, expected {e}", as_f64(g));
        }
    }
}

#[test]
fn rms_norm_matches_expected_output() {
    let circuit = RmsNormTest { inputs: sample_inputs(), weight: sample_weight() };
    run(13, &circuit, &[]).assert_satisfied();
}

struct RmsNormGuard;

impl Layout for RmsNormGuard {
    type Config = RmsNormConfig;

    fn configure(meta: &mut ConstraintSystem) -> RmsNormConfig {
        configure_rms_norm(meta)
    }

    fn synthesize(&self, config: RmsNormConfig, layouter: &mut Layouter) {
        let chip = rms_norm_chip(config);
        chip.load_table(layouter);
        let result = chip.assign(layouter, &sample_inputs()[..3].to_vec(), &sample_weight());
        assert!(matches!(
            result,
            Err(RmsNormError::InputCountMismatch { expected: 4, got: 3 })
        ));
    }
}

#[test]
fn rms_norm_assign_rejects_wrong_input_count_at_the_rust_level() {
    run(13, &RmsNormGuard, &[]).assert_satisfied();
}

#[test]
fn rms_norm_knows_which_inputs_leave_the_range() {
    let mut meta = ConstraintSystem::new();
    let chip = rms_norm_chip(configure_rms_norm(&mut meta));
    assert!(chip.in_range(&sample_inputs(), &sample_weight()));
    // The squares of these are far beyond the largest number.
    assert!(!chip.in_range(&vector(&[9.0, 9.0, 9.0, 9.0]), &sample_weight()));
}

/// An offset that moves the sample inputs' sum from one point of the domain to the next.
fn other_offset() -> I18 {
    let (domain, _) = rsqrt_domain();
    I18::from_raw(domain[41].raw() - i18(1.25).raw())
}

struct OtherOffsetLayerNorm;

impl Layout for OtherOffsetLayerNorm {
    type Config = LayerNormConfig;

    fn configure(meta: &mut ConstraintSystem) -> LayerNormConfig {
        configure_layer_norm(meta)
    }

    fn synthesize(&self, config: LayerNormConfig, layouter: &mut Layouter) {
        let mut other = config;
        other.epsilon = other_offset();
        other.offset.value = other_offset();
        let chip = layer_norm_chip(other);
        chip.load_table(layouter);
        chip.assign(layouter, &sample_inputs()).unwrap();
    }
}

#[test]
fn layer_norm_with_another_epsilon_is_rejected() {
    assert!(run(12, &OtherOffsetLayerNorm, &[]).verify().is_err());
}

struct OtherOffsetRmsNorm;

impl Layout for OtherOffsetRmsNorm {
    type Config = RmsNormConfig;

    fn configure(meta: &mut ConstraintSystem) -> RmsNormConfig {
        configure_rms_norm(meta)
    }

    fn synthesize(&self, config: RmsNormConfig, layouter: &mut Layouter) {
        let mut other = config;
        other.epsilon = other_offset();
        other.offset.value = other_offset();
        let chip = rms_norm_chip(other);
        chip.load_table(layouter);
        chip.assign(layouter, &sample_inputs(), &sample_weight()).unwrap();
    }
}

#[test]
fn rms_norm_with_another_epsilon_is_rejected() {
    assert!(run(13, &OtherOffsetRmsNorm, &[]).verify().is_err());
}

struct MismatchedWeight;

impl Layout for MismatchedWeight {
    type Config = RmsNormConfig;

    fn configure(meta: &mut ConstraintSystem) -> RmsNormConfig {
        configure_rms_norm(meta)
    }

    fn synthesize(&self, config: RmsNormConfig, layouter: &mut Layouter) {
        let region = layouter.region();
        let one = i64_to_fr(i18(1.0).raw());
        let anchor = layouter.assign_advice(region, config.weight_anchor, 0, one);
        let product = assign_mul_row(&config.mul, layouter, i18(1.0), i18(2.0));
        link(layouter, &[(product.b.cell, anchor.cell)]);
    }
}

#[test]
fn forged_weight_link_is_rejected() {
    assert!(
        run(13, &MismatchedWeight, &[]).verify().is_err(),
        "two different witnessed values must not be linked"
    );
    let circuit = RmsNormTest { inputs: sample_inputs(), weight: sample_weight() };
    run(13, &circuit, &[]).assert_satisfied();
}
