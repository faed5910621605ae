//! Range checks, elementwise operations, divisions, dot products, sums and means.
use halo2_proofs::circuit::{
    Cell as ProverCell, Layouter as ProverLayouter, SimpleFloorPlanner, Value,
};
use halo2_proofs::dev::MockProver;
use halo2_proofs::plonk::{
    Advice, Circuit, Column as ProverColumn, ConstraintSystem as ProverSystem, Error,
    Expression as ProverExpression, Fixed, Instance, Selector as ProverSelector,
    TableColumn as ProverTable, VirtualCells,
};
use halo2_proofs::poly::Rotation;
use halo2curves::bn256::Fr as Scalar;
use zkie_core::chips::div::{div_quotient_remainder, DivChip, DivConfig};
use zkie_core::chips::dot_general::{DotProductChip, DotProductConfig, DotProductError};
use zkie_core::chips::eltwise::{
    load_mul_operand_range_table, EltwiseAddChip, EltwiseAddConfig, EltwiseMulChip,
    EltwiseMulConfig,
};
use zkie_core::chips::lookup_range_check::{LookupRangeCheckChip, LookupRangeCheckConfig};
use zkie_core::chips::range_check::{RangeCheckChip, RangeCheckConfig};
use zkie_core::chips::reduce::{
    ReduceMeanChip, ReduceMeanConfig, ReduceSumChip, ReduceSumConfig,
};
use zkie_core::field::Fr;
use zkie_core::field_convert::{i128_to_fr, i64_to_fr, shifted_i64_witness, SIGNED_SHIFT};
use zkie_core::fixed_point::{requantize_mul, requantize_raw, I18, SCALE_18};
use zkie_core::layout::{Cell, Layouter, Op};
use zkie_core::plonk::{Column, ColumnKind, ConstraintSystem, Expression, Rule, Selector};

// ---- Laying the library's circuits out for the mock prover ----

/// A circuit of the library: its constraints and what it lays out.
trait Layout {
    type Config;

    fn configure(meta: &mut ConstraintSystem) -> Self::Config;

    fn synthesize(&self, config: Self::Config, layouter: &mut Layouter);
}

#[derive(Clone)]
struct Columns {
    advice: Vec<ProverColumn<Advice>>,
    fixed: Vec<ProverColumn<Fixed>>,
    instance: Vec<ProverColumn<Instance>>,
    tables: Vec<ProverTable>,
    selectors: Vec<ProverSelector>,
}

fn scalar(value: &Fr) -> Scalar {
    Scalar::from_raw(value.limbs())
}

fn polynomial(
    e: &Expression,
    cells: &mut VirtualCells<'_, Scalar>,
    columns: &Columns,
) -> ProverExpression<Scalar> {
    match e {
        Expression::Constant(c) => ProverExpression::Constant(scalar(c)),
        Expression::Query { column, rotation } => match column.kind {
            ColumnKind::Advice => {
                cells.query_advice(columns.advice[column.index], Rotation(*rotation))
            }
            ColumnKind::Fixed => {
                assert_eq!(*rotation, 0);
                cells.query_fixed(columns.fixed[column.index])
            }
            ColumnKind::Instance => {
                cells.query_instance(columns.instance[column.index], Rotation(*rotation))
            }
        },
        Expression::Sum(a, b) => polynomial(a, cells, columns) + polynomial(b, cells, columns),
        Expression::Difference(a, b) => {
            polynomial(a, cells, columns) - polynomial(b, cells, columns)
        }
        Expression::Product(a, b) => polynomial(a, cells, columns) * polynomial(b, cells, columns),
    }
}

fn declare(meta: &mut ProverSystem<Scalar>, cs: &ConstraintSystem) -> Columns {
    let mut columns = Columns {
        advice: (0..cs.advice).map(|_| meta.advice_column()).collect(),
        fixed: (0..cs.fixed).map(|_| meta.fixed_column()).collect(),
        instance: (0..cs.instance).map(|_| meta.instance_column()).collect(),
        tables: (0..cs.tables).map(|_| meta.lookup_table_column()).collect(),
        selectors: Vec::new(),
    };
    for column in &cs.equality {
        match column.kind {
            ColumnKind::Advice => meta.enable_equality(columns.advice[column.index]),
            ColumnKind::Fixed => meta.enable_equality(columns.fixed[column.index]),
            ColumnKind::Instance => meta.enable_equality(columns.instance[column.index]),
        }
    }
    for column in &cs.constants {
        meta.enable_constant(columns.fixed[column.index]);
    }
    for rule in &cs.rules {
        match rule {
            Rule::Gate(polynomials) => {
                let selector = meta.selector();
                meta.create_gate("gate", |cells| {
                    let on = cells.query_selector(selector);
                    polynomials
                        .iter()
                        .map(|p| on.clone() * polynomial(p, cells, &columns))
                        .collect::<Vec<_>>()
                });
                columns.selectors.push(selector);
            }
            Rule::Lookup(inputs) => {
                let selector = meta.complex_selector();
                meta.lookup(|cells| {
                    let on = cells.query_selector(selector);
                    let off = ProverExpression::Constant(Scalar::one()) - on.clone();
                    inputs
                        .iter()
                        .map(|input| {
                            let value = on.clone() * polynomial(&input.expression, cells, &columns)
                                + off.clone()
                                    * ProverExpression::Constant(scalar(&input.default));
                            (value, columns.tables[input.table.0])
                        })
                        .collect()
                });
                columns.selectors.push(selector);
            }
        }
    }
    columns
}

/// The steps of a table, or of a region with its name.
struct Group {
    table: bool,
    region: Option<usize>,
    ops: Vec<Op>,
}

fn groups(ops: &[Op]) -> Vec<Group> {
    let mut all: Vec<Group> = Vec::new();
    for (i, op) in ops.iter().enumerate() {
        let row = matches!(op, Op::TableRow { .. });
        match op {
            Op::Region => all.push(Group { table: false, region: Some(i), ops: vec![] }),
            Op::Table => all.push(Group { table: true, region: None, ops: vec![] }),
            _ => {
                if all.last().map_or(true, |g| g.table != row) {
                    all.push(Group { table: row, region: None, ops: vec![] });
                }
                all.last_mut().unwrap().ops.push(*op);
            }
        }
    }
    all
}

fn replay(
    log: &Layouter,
    columns: &Columns,
    mut layouter: impl ProverLayouter<Scalar>,
) -> Result<(), Error> {
    let witness = |v: &Fr| {
        if log.known {
            Value::known(scalar(v))
        } else {
            Value::unknown()
        }
    };
    let mut cells: Vec<(Cell, ProverCell)> = Vec::new();
    let find = |cells: &Vec<(Cell, ProverCell)>, c: &Cell| {
        cells[cells.iter().rposition(|(at, _)| at == c).expect("an assigned cell")].1
    };
    for group in groups(&log.ops) {
        if group.table {
            layouter.assign_table(
                || "table",
                |mut table| {
                    for op in &group.ops {
                        if let Op::TableRow { table: column, row, value } = op {
                            let v = Value::known(scalar(value));
                            table.assign_cell(|| "row", columns.tables[column.0], *row, || v)?;
                        }
                    }
                    Ok(())
                },
            )?;
            continue;
        }
        layouter.assign_region(
            || "region",
            |mut region| {
                for op in &group.ops {
                    match op {
                        Op::Enable { region: name, selector, offset } => {
                            assert_eq!(Some(*name), group.region);
                            columns.selectors[selector.0].enable(&mut region, *offset)?;
                        }
                        Op::Advice { cell, value } => {
                            assert_eq!(Some(cell.region), group.region);
                            let assigned = region.assign_advice(
                                || "advice",
                                columns.advice[cell.column.index],
                                cell.offset,
                                || witness(value),
                            )?;
                            cells.push((*cell, assigned.cell()));
                        }
                        Op::Fixed { cell, value } => {
                            assert_eq!(Some(cell.region), group.region);
                            let assigned = region.assign_fixed(
                                || "fixed",
                                columns.fixed[cell.column.index],
                                cell.offset,
                                || Value::known(scalar(value)),
                            )?;
                            cells.push((*cell, assigned.cell()));
                        }
                        Op::Equal { left, right } => {
                            region.constrain_equal(find(&cells, left), find(&cells, right))?;
                        }
                        Op::Constant { cell, value } => {
                            region.constrain_constant(find(&cells, cell), scalar(value))?;
                        }
                        _ => {}
                    }
                }
                Ok(())
            },
        )?;
    }
    for op in &log.ops {
        if let Op::Instance { cell, column, row } = op {
            layouter.constrain_instance(find(&cells, cell), columns.instance[column.index], *row)?;
        }
    }
    Ok(())
}

struct Replay<'a, L>(&'a L);

impl<'a, L: Layout> Circuit<Scalar> for Replay<'a, L> {
    type Config = Columns;
    type FloorPlanner = SimpleFloorPlanner;

    fn without_witnesses(&self) -> Self {
        Replay(self.0)
    }

    fn configure(meta: &mut ProverSystem<Scalar>) -> Columns {
        let mut cs = ConstraintSystem::new();
        L::configure(&mut cs);
        declare(meta, &cs)
    }

    fn synthesize(
        &self,
        columns: Columns,
        layouter: impl ProverLayouter<Scalar>,
    ) -> Result<(), Error> {
        let mut cs = ConstraintSystem::new();
        let config = L::configure(&mut cs);
        let mut log = Layouter::new(true);
        self.0.synthesize(config, &mut log);
        replay(&log, &columns, layouter)
    }
}

fn run<L: Layout>(k: u32, layout: &L, publics: &[Fr]) -> MockProver<Scalar> {
    let mut cs = ConstraintSystem::new();
    L::configure(&mut cs);
    let instance = if cs.instance == 0 {
        vec![]
    } else {
        vec![publics.iter().map(scalar).collect()]
    };
    MockProver::run(k, &Replay(layout), instance).unwrap()
}

// ---- Numbers ----

const ONE: f64 = 1_000_000_000_000_000_000.0;

fn i18(v: f64) -> I18 {
    let scaled = (v * ONE).round();
    assert!(scaled.is_finite() && scaled >= i64::MIN as f64 && scaled <= i64::MAX as f64);
    I18::from_raw(scaled as i64)
}

fn as_f64(x: &I18) -> f64 {
    x.raw() as f64 / ONE
}

fn vector(vs: &[f64]) -> Vec<I18> {
    vs.iter().map(|v| i18(*v)).collect()
}

fn raws(vs: &[I18]) -> Vec<i64> {
    vs.iter().map(|v| v.raw()).collect()
}

fn columns(meta: &mut ConstraintSystem, n: usize) -> Vec<Column> {
    (0..n).map(|_| meta.advice_column()).collect()
}

/// Opens a region and puts each value into its column's first row.
fn row(layouter: &mut Layouter, selectors: &[Selector], cells: &[(Column, Fr)]) -> Vec<Cell> {
    let region = layouter.region();
    for selector in selectors {
        layouter.enable(region, *selector, 0);
    }
    cells
        .iter()
        .map(|(column, value)| layouter.assign_advice(region, *column, 0, *value).cell)
        .collect()
}

fn range(layouter: &mut Layouter, config: RangeCheckConfig, raw: i128) -> Cell {
    RangeCheckChip::construct(config).assign(layouter, i128_to_fr(raw), raw).cell
}

fn limbs(layouter: &mut Layouter, config: LookupRangeCheckConfig, raw: i128) -> Cell {
    LookupRangeCheckChip::construct(config).assign(layouter, i128_to_fr(raw), raw).cell
}

fn link(layouter: &mut Layouter, pairs: &[(Cell, Cell)]) {
    layouter.region();
    for (left, right) in pairs {
        layouter.constrain_equal(*left, *right);
    }
}

fn shifted(v: i64) -> Fr {
    shifted_i64_witness(v).0
}

fn shifted_raw(v: i64) -> i128 {
    shifted_i64_witness(v).1
}

// ---- Range checks ----

struct RangeTest<const BITS: usize> {
    value: Fr,
    raw_value: i128,
}

impl<const BITS: usize> Layout for RangeTest<BITS> {
    type Config = RangeCheckConfig;

    fn configure(meta: &mut ConstraintSystem) -> RangeCheckConfig {
        let value = meta.advice_column();
        let bits = meta.advice_column();
        meta.enable_equality(value);
        RangeCheckChip::configure(meta, value, bits, BITS)
    }

    fn synthesize(&self, config: RangeCheckConfig, layouter: &mut Layouter) {
        RangeCheckChip::construct(config).assign(layouter, self.value, self.raw_value);
    }
}

#[test]
fn value_within_8_bit_range_is_satisfied() {
    let circuit = RangeTest::<8> { value: Fr::from_u64(200), raw_value: 200 };
    run(6, &circuit, &[]).assert_satisfied();
}

#[test]
fn value_equal_to_zero_is_satisfied() {
    let circuit = RangeTest::<8> { value: Fr::zero(), raw_value: 0 };
    run(6, &circuit, &[]).assert_satisfied();
}

#[test]
fn value_at_max_of_range_is_satisfied() {
    let circuit = RangeTest::<8> { value: Fr::from_u64(255), raw_value: 255 };
    run(6, &circuit, &[]).assert_satisfied();
}

#[test]
fn value_exceeding_8_bit_range_is_rejected() {
    // The eight witnessed bits add up to 255 at most.
    let circuit = RangeTest::<8> { value: Fr::from_u64(256), raw_value: 256 };
    assert!(run(6, &circuit, &[]).verify().is_err());
}

#[test]
fn value_within_64_bit_range_is_satisfied() {
    let raw: i128 = (1i128 << 63) + 12345;
    let circuit = RangeTest::<64> { value: i128_to_fr(raw), raw_value: raw };
    run(8, &circuit, &[]).assert_satisfied();
}

struct LimbTest {
    value: Fr,
    raw_value: i128,
}

impl Layout for LimbTest {
    type Config = LookupRangeCheckConfig;

    fn configure(meta: &mut ConstraintSystem) -> LookupRangeCheckConfig {
        let value = meta.advice_column();
        let limbs = meta.advice_column();
        LookupRangeCheckChip::configure(meta, value, limbs, 16)
    }

    fn synthesize(&self, config: LookupRangeCheckConfig, layouter: &mut Layouter) {
        let chip = LookupRangeCheckChip::construct(config);
        chip.load_table(layouter);
        chip.assign(layouter, self.value, self.raw_value);
    }
}

#[test]
fn limbs_bound_a_value_to_16_bits() {
    let largest = LimbTest { value: Fr::from_u64(65_535), raw_value: 65_535 };
    run(10, &largest, &[]).assert_satisfied();
    let beyond = LimbTest { value: Fr::from_u64(65_536), raw_value: 65_536 };
    assert!(run(10, &beyond, &[]).verify().is_err());
    let negative = LimbTest { value: i128_to_fr(-1), raw_value: -1 };
    assert!(run(10, &negative, &[]).verify().is_err());
}

// ---- Elementwise addition ----

fn configure_add(meta: &mut ConstraintSystem) -> EltwiseAddConfig {
    let c = columns(meta, 4);
    EltwiseAddChip::configure(meta, c[0], c[1], c[2], c[3])
}

struct AddTest {
    a: I18,
    b: I18,
}

impl Layout for AddTest {
    type Config = EltwiseAddConfig;

    fn configure(meta: &mut ConstraintSystem) -> EltwiseAddConfig {
        configure_add(meta)
    }

    fn synthesize(&self, config: EltwiseAddConfig, layouter: &mut Layouter) {
        let c = EltwiseAddChip::construct(config).assign(layouter, self.a, self.b);
        assert_eq!(c.value, shifted(self.a.raw() + self.b.raw()));
    }
}

#[test]
fn add_positive_plus_positive_satisfied() {
    run(10, &AddTest { a: i18(2.0), b: i18(3.5) }, &[]).assert_satisfied();
}

#[test]
fn add_negative_plus_positive_satisfied() {
    run(10, &AddTest { a: i18(-2.0), b: i18(3.5) }, &[]).assert_satisfied();
}

struct ForgedAdd {
    a: I18,
    b: I18,
}

impl Layout for ForgedAdd {
    type Config = EltwiseAddConfig;

    fn configure(meta: &mut ConstraintSystem) -> EltwiseAddConfig {
        configure_add(meta)
    }

    fn synthesize(&self, add: EltwiseAddConfig, layouter: &mut Layouter) {
        let forged_c = self.a.raw() + self.b.raw() + 1;
        row(
            layouter,
            &[add.s_add],
            &[
                (add.a, shifted(self.a.raw())),
                (add.b, shifted(self.b.raw())),
                (add.c, shifted(forged_c)),
            ],
        );
    }
}

#[test]
fn add_with_forged_sum_is_rejected() {
    let circuit = ForgedAdd { a: i18(2.0), b: i18(3.0) };
    assert!(run(10, &circuit, &[]).verify().is_err());
}

struct MismatchedAdd {
    a: I18,
    b: I18,
}

impl Layout for MismatchedAdd {
    type Config = EltwiseAddConfig;

    fn configure(meta: &mut ConstraintSystem) -> EltwiseAddConfig {
        configure_add(meta)
    }

    fn synthesize(&self, add: EltwiseAddConfig, layouter: &mut Layouter) {
        let (a, b) = (self.a.raw(), self.b.raw());
        let cells = row(
            layouter,
            &[add.s_add],
            &[(add.a, shifted(a)), (add.b, shifted(b)), (add.c, shifted(a + b))],
        );
        let a_range = range(layouter, add.range_a, shifted_raw(a));
        let b_range = range(layouter, add.range_b, shifted_raw(b));
        // A decoy is bounded in place of the sum, but is linked to it.
        let c_range = range(layouter, add.range_c, shifted_raw(0));
        link(layouter, &[(cells[0], a_range), (cells[1], b_range), (cells[2], c_range)]);
    }
}

#[test]
fn add_constrain_equal_rejects_mismatched_range_check_witness() {
    let circuit = MismatchedAdd { a: i18(2.0), b: i18(3.0) };
    assert!(
        run(10, &circuit, &[]).verify().is_err(),
        "a c cell tied to a mismatched decoy must be rejected"
    );
}

// ---- Elementwise multiplication ----

fn configure_mul(meta: &mut ConstraintSystem) -> EltwiseMulConfig {
    let c = columns(meta, 6);
    EltwiseMulChip::configure(meta, c[0], c[1], c[2], c[3], c[4], c[5])
}

struct MulTest {
    a: I18,
    b: I18,
}

impl Layout for MulTest {
    type Config = EltwiseMulConfig;

    fn configure(meta: &mut ConstraintSystem) -> EltwiseMulConfig {
        configure_mul(meta)
    }

    fn synthesize(&self, config: EltwiseMulConfig, layouter: &mut Layouter) {
        let chip = EltwiseMulChip::construct(config);
        chip.load_range_table(layouter);
        let q = chip.assign(layouter, self.a, self.b);
        let expected = requantize_mul(self.a, self.b).unwrap().0;
        assert_eq!(q.value, shifted(expected.raw()));
    }
}

#[test]
fn mul_positive_times_positive_satisfied() {
    run(10, &MulTest { a: i18(2.0), b: i18(3.0) }, &[]).assert_satisfied();
}

#[test]
fn mul_negative_times_positive_satisfied() {
    run(10, &MulTest { a: i18(-2.5), b: i18(2.0) }, &[]).assert_satisfied();
}

struct ForgedMul {
    a: I18,
    b: I18,
}

impl Layout for ForgedMul {
    type Config = EltwiseMulConfig;

    fn configure(meta: &mut ConstraintSystem) -> EltwiseMulConfig {
        configure_mul(meta)
    }

    fn synthesize(&self, mul: EltwiseMulConfig, layouter: &mut Layouter) {
        let (q, r) = requantize_mul(self.a, self.b).unwrap();
        row(
            layouter,
            &[mul.s_mul, mul.s_slack],
            &[
                (mul.a, i64_to_fr(self.a.raw())),
                (mul.b, i64_to_fr(self.b.raw())),
                (mul.q, shifted(q.raw() + 1)),
                (mul.r, i128_to_fr(r)),
                (mul.slack, i128_to_fr(SCALE_18 - 1 - r)),
            ],
        );
    }
}

#[test]
fn mul_with_forged_quotient_is_rejected() {
    let circuit = ForgedMul { a: i18(2.0), b: i18(3.0) };
    assert!(run(10, &circuit, &[]).verify().is_err());
}

struct MismatchedMul {
    a: I18,
    b: I18,
}

impl Layout for MismatchedMul {
    type Config = EltwiseMulConfig;

    fn configure(meta: &mut ConstraintSystem) -> EltwiseMulConfig {
        configure_mul(meta)
    }

    fn synthesize(&self, mul: EltwiseMulConfig, layouter: &mut Layouter) {
        let (q, r) = requantize_mul(self.a, self.b).unwrap();
        let slack = SCALE_18 - 1 - r;
        let cells = row(
            layouter,
            &[mul.s_mul, mul.s_slack],
            &[
                (mul.a, i64_to_fr(self.a.raw())),
                (mul.b, i64_to_fr(self.b.raw())),
                (mul.q, shifted(q.raw())),
                (mul.r, i128_to_fr(r)),
                (mul.slack, i128_to_fr(slack)),
            ],
        );
        let r_range = range(layouter, mul.range_r, r);
        let slack_range = range(layouter, mul.range_r_slack, slack);
        let q_range = range(layouter, mul.range_q, shifted_raw(0));
        link(layouter, &[(cells[2], q_range), (cells[3], r_range), (cells[4], slack_range)]);
    }
}

#[test]
fn mul_constrain_equal_rejects_mismatched_range_check_witness() {
    let circuit = MismatchedMul { a: i18(2.0), b: i18(3.0) };
    assert!(
        run(10, &circuit, &[]).verify().is_err(),
        "a q cell tied to a mismatched decoy must be rejected"
    );
}

/// The ways to witness an operand that is no 64-bit number.
#[derive(Clone, Copy, Debug)]
enum Forge {
    HonestShift,
    ShiftIntoRange,
    DisconnectedRangeWitness,
}

const FORGES: [Forge; 3] =
    [Forge::HonestShift, Forge::ShiftIntoRange, Forge::DisconnectedRangeWitness];

impl Forge {
    /// The shifted operand on the row.
    fn on_row(self, v: i128) -> i128 {
        match self {
            Forge::ShiftIntoRange => 0,
            _ => v + SIGNED_SHIFT,
        }
    }

    /// What is handed to the range check.
    fn in_check(self, v: i128) -> i128 {
        match self {
            Forge::DisconnectedRangeWitness => 0,
            _ => self.on_row(v),
        }
    }
}

struct OutOfRangeMul {
    a_raw: i128,
    b_raw: i128,
    forge: Forge,
}

impl Layout for OutOfRangeMul {
    type Config = EltwiseMulConfig;

    fn configure(meta: &mut ConstraintSystem) -> EltwiseMulConfig {
        configure_mul(meta)
    }

    fn synthesize(&self, mul: EltwiseMulConfig, layouter: &mut Layouter) {
        let product = self.a_raw * self.b_raw;
        let q = product.div_euclid(SCALE_18) as i64;
        let r = product.rem_euclid(SCALE_18);
        let slack = SCALE_18 - 1 - r;
        let cells = row(
            layouter,
            &[mul.s_mul, mul.s_slack, mul.s_shift],
            &[
                (mul.a, i128_to_fr(self.a_raw)),
                (mul.b, i128_to_fr(self.b_raw)),
                (mul.a_shift, i128_to_fr(self.forge.on_row(self.a_raw))),
                (mul.b_shift, i128_to_fr(self.forge.on_row(self.b_raw))),
                (mul.q, shifted(q)),
                (mul.r, i128_to_fr(r)),
                (mul.slack, i128_to_fr(slack)),
            ],
        );
        // Without the tables the circuit would be rejected for another reason.
        load_mul_operand_range_table(&mul, layouter);
        let a_range = limbs(layouter, mul.range_a, self.forge.in_check(self.a_raw));
        let b_range = limbs(layouter, mul.range_b, self.forge.in_check(self.b_raw));
        let q_range = range(layouter, mul.range_q, shifted_raw(q));
        let r_range = range(layouter, mul.range_r, r);
        let slack_range = range(layouter, mul.range_r_slack, slack);
        link(
            layouter,
            &[
                (cells[2], a_range),
                (cells[3], b_range),
                (cells[4], q_range),
                (cells[5], r_range),
                (cells[6], slack_range),
            ],
        );
    }
}

#[test]
fn mul_rejects_out_of_range_operand() {
    // The operand lies above every 64-bit number, while the quotient 10, the remainder 0 and
    // the slack are in range: only the bound on the operands itself catches it.
    for forge in FORGES {
        let circuit = OutOfRangeMul { a_raw: 10 * SCALE_18, b_raw: 1, forge };
        assert!(
            run(11, &circuit, &[]).verify().is_err(),
            "an operand above i64::MAX must not satisfy the circuit ({forge:?})"
        );
    }
}

// ---- Division ----

fn configure_div(meta: &mut ConstraintSystem) -> DivConfig {
    let c = columns(meta, 7);
    DivChip::configure(meta, c[0], c[1], c[2], c[3], c[4], c[5], c[6])
}

struct DivTest {
    numerator: I18,
    divisor: I18,
}

impl Layout for DivTest {
    type Config = DivConfig;

    fn configure(meta: &mut ConstraintSystem) -> DivConfig {
        configure_div(meta)
    }

    fn synthesize(&self, config: DivConfig, layouter: &mut Layouter) {
        let (q, _, _) = DivChip::construct(config)
            .assign(layouter, self.numerator, self.divisor)
            .unwrap();
        assert_eq!(q, div_quotient_remainder(self.numerator, self.divisor).unwrap().0);
    }
}

#[test]
fn five_divided_by_two_is_exact_two_point_five() {
    let numerator = i18(5.0);
    let divisor = i18(2.0);
    let (quotient, remainder) = div_quotient_remainder(numerator, divisor).unwrap();
    assert!((as_f64(&quotient) - 2.5).abs() < 1e-9);
    assert_eq!(quotient.raw(), 2_500_000_000_000_000_000);
    assert_eq!(remainder, 0);
    run(11, &DivTest { numerator, divisor }, &[]).assert_satisfied();
}

#[test]
fn seven_divided_by_three_matches_host_requantize_within_tolerance() {
    let numerator = i18(7.0);
    let divisor = i18(3.0);
    let n = (numerator.raw() as i128) * SCALE_18;
    let d = divisor.raw() as i128;
    let expected_q = n.div_euclid(d);
    let expected_r = n.rem_euclid(d);
    let (quotient, remainder) = div_quotient_remainder(numerator, divisor).unwrap();
    assert_eq!(quotient.raw() as i128, expected_q);
    assert_eq!(remainder, expected_r);
    assert!((0..d).contains(&remainder));
    assert!((as_f64(&quotient) - 7.0 / 3.0).abs() < 1e-9);
    run(11, &DivTest { numerator, divisor }, &[]).assert_satisfied();
}

/// The values of a division's row: quotient, remainder, slack and the divisor less one.
fn div_row(
    layouter: &mut Layouter,
    div: &DivConfig,
    numerator: i64,
    divisor: i64,
    values: (i64, i128, i128, i128),
) -> Vec<Cell> {
    let (q, r, slack, dm1) = values;
    row(
        layouter,
        &[div.s_div, div.s_slack, div.s_dm1],
        &[
            (div.numerator, i64_to_fr(numerator)),
            (div.divisor, i64_to_fr(divisor)),
            (div.q_shift, shifted(q)),
            (div.r, i128_to_fr(r)),
            (div.slack, i128_to_fr(slack)),
            (div.dm1, i128_to_fr(dm1)),
        ],
    )
}

/// Bounds the four values in regions of their own and links them to a division's row.
fn div_ranges(
    layouter: &mut Layouter,
    div: &DivConfig,
    cells: &[Cell],
    values: (i64, i128, i128, i128),
) {
    let (q, r, slack, dm1) = values;
    let q_range = range(layouter, div.range_q, shifted_raw(q));
    let r_range = range(layouter, div.range_r, r);
    let slack_range = range(layouter, div.range_slack, slack);
    let dm1_range = range(layouter, div.range_dm1, dm1);
    link(
        layouter,
        &[
            (cells[2], q_range),
            (cells[3], r_range),
            (cells[4], slack_range),
            (cells[5], dm1_range),
        ],
    );
}

struct ForgedQuotient {
    numerator: I18,
    divisor: I18,
}

impl Layout for ForgedQuotient {
    type Config = DivConfig;

    fn configure(meta: &mut ConstraintSystem) -> DivConfig {
        configure_div(meta)
    }

    fn synthesize(&self, div: DivConfig, layouter: &mut Layouter) {
        let (q, r) = div_quotient_remainder(self.numerator, self.divisor).unwrap();
        let d = self.divisor.raw() as i128;
        let values = (q.raw() + 1, r, d - 1 - r, d - 1);
        let cells = div_row(layouter, &div, self.numerator.raw(), self.divisor.raw(), values);
        div_ranges(layouter, &div, &cells, values);
    }
}

#[test]
fn div_with_forged_quotient_is_rejected() {
    let circuit = ForgedQuotient { numerator: i18(5.0), divisor: i18(2.0) };
    assert!(run(11, &circuit, &[]).verify().is_err());
}

/// A remainder that is not below the divisor, made up for by the quotient. The range checks
/// get the forged values, or the true ones.
struct ForgedRemainder {
    numerator: I18,
    divisor: I18,
    disconnected: bool,
}

impl Layout for ForgedRemainder {
    type Config = DivConfig;

    fn configure(meta: &mut ConstraintSystem) -> DivConfig {
        configure_div(meta)
    }

    fn synthesize(&self, div: DivConfig, layouter: &mut Layouter) {
        let (q, r) = div_quotient_remainder(self.numerator, self.divisor).unwrap();
        let d = self.divisor.raw() as i128;
        let forged = (q.raw() - 1, r + d, d - 1 - (r + d), d - 1);
        let cells = div_row(layouter, &div, self.numerator.raw(), self.divisor.raw(), forged);
        let checked = if self.disconnected {
            (q.raw(), r, d - 1 - r, d - 1)
        } else {
            forged
        };
        div_ranges(layouter, &div, &cells, checked);
    }
}

#[test]
fn div_with_remainder_forged_to_violate_r_less_than_divisor_is_rejected() {
    let circuit =
        ForgedRemainder { numerator: i18(5.0), divisor: i18(2.0), disconnected: false };
    assert!(run(11, &circuit, &[]).verify().is_err());
}

#[test]
fn div_cross_region_forgery_is_rejected_by_explicit_link() {
    let circuit = ForgedRemainder { numerator: i18(5.0), divisor: i18(2.0), disconnected: true };
    assert!(run(11, &circuit, &[]).verify().is_err());
}

struct ZeroDivisor;

impl Layout for ZeroDivisor {
    type Config = DivConfig;

    fn configure(meta: &mut ConstraintSystem) -> DivConfig {
        configure_div(meta)
    }

    fn synthesize(&self, div: DivConfig, layouter: &mut Layouter) {
        // 0 == 0 * 0 + 0, so that only the bound on the divisor less one can fail.
        let cells = div_row(layouter, &div, 0, 0, (0, 0, -1, -1));
        let dm1_range = range(layouter, div.range_dm1, -1);
        link(layouter, &[(cells[5], dm1_range)]);
    }
}

#[test]
fn div_with_nonpositive_divisor_forged_in_circuit_is_rejected() {
    assert!(run(11, &ZeroDivisor, &[]).verify().is_err());
}

// ---- Dot products ----

const K: usize = 3;

fn configure_dot(meta: &mut ConstraintSystem) -> DotProductConfig {
    let c = columns(meta, 7);
    DotProductChip::configure(meta, c[0], c[1], c[2], c[3], c[4], c[5], c[6], K)
}

fn mixed_operands() -> (Vec<I18>, Vec<I18>) {
    (vector(&[2.0, -3.0, 1.5]), vector(&[3.0, 2.0, -4.0]))
}

fn raw_dot(a: &[I18], b: &[I18]) -> i128 {
    a.iter().zip(b.iter()).map(|(x, y)| (x.raw() as i128) * (y.raw() as i128)).sum()
}

struct DotTest {
    a: Vec<I18>,
    b: Vec<I18>,
}

impl Layout for DotTest {
    type Config = DotProductConfig;

    fn configure(meta: &mut ConstraintSystem) -> DotProductConfig {
        configure_dot(meta)
    }

    fn synthesize(&self, config: DotProductConfig, layouter: &mut Layouter) {
        let chip = DotProductChip::construct(config);
        chip.load_range_table(layouter);
        let q = chip.assign(layouter, self.a.clone(), self.b.clone()).unwrap();
        assert_eq!(q, requantize_raw(raw_dot(&self.a, &self.b)).unwrap().0);
    }
}

#[test]
fn dot_product_of_mixed_sign_length_3_vectors_is_satisfied_and_correct() {
    let (a, b) = mixed_operands();
    let (expected_q, _) = requantize_raw(raw_dot(&a, &b)).unwrap();
    run(10, &DotTest { a, b }, &[]).assert_satisfied();
    assert!((as_f64(&expected_q) - (-6.0)).abs() < 1e-9);
}

#[test]
fn dot_product_all_zero_is_satisfied() {
    let zeros = vec![I18::from_raw(0); K];
    run(10, &DotTest { a: zeros.clone(), b: zeros }, &[]).assert_satisfied();
}

#[test]
fn assign_rejects_mismatched_vector_lengths() {
    let mut meta = ConstraintSystem::new();
    let chip = DotProductChip::construct(configure_dot(&mut meta));
    let mut layouter = Layouter::new(true);
    match chip.assign(&mut layouter, vec![I18::from_raw(1); K], vec![I18::from_raw(1); K - 1]) {
        Err(DotProductError::LengthMismatch { expected, got_a, got_b }) => {
            assert_eq!(expected, K);
            assert_eq!(got_a, K);
            assert_eq!(got_b, K - 1);
        }
        other => panic!("expected LengthMismatch, got {other:?}"),
    }
    assert!(layouter.ops.is_empty());
}

/// A dot product's rows without operand shifts, with the given shifted quotient.
fn dot_rows(
    layouter: &mut Layouter,
    dot: &DotProductConfig,
    a: &[I18],
    b: &[I18],
    q: i64,
) -> (Cell, Cell, Cell, i128) {
    let region = layouter.region();
    let mut acc = 0i128;
    for i in 0..K {
        layouter.assign_advice(region, dot.a, i, i64_to_fr(a[i].raw()));
        layouter.assign_advice(region, dot.b, i, i64_to_fr(b[i].raw()));
        acc += (a[i].raw() as i128) * (b[i].raw() as i128);
        layouter.assign_advice(region, dot.accumulator, i, i128_to_fr(acc));
        layouter.enable(region, if i == 0 { dot.s_acc_start } else { dot.s_acc_step }, i);
    }
    let r = requantize_raw(acc).unwrap().1;
    layouter.enable(region, dot.s_final, K - 1);
    layouter.enable(region, dot.s_slack, K - 1);
    let q_cell = layouter.assign_advice(region, dot.q, K - 1, shifted(q)).cell;
    let r_cell = layouter.assign_advice(region, dot.r, K - 1, i128_to_fr(r)).cell;
    let slack = i128_to_fr(SCALE_18 - 1 - r);
    let slack_cell = layouter.assign_advice(region, dot.slack, K - 1, slack).cell;
    (q_cell, r_cell, slack_cell, r)
}

struct ForgedDot {
    a: Vec<I18>,
    b: Vec<I18>,
}

impl Layout for ForgedDot {
    type Config = DotProductConfig;

    fn configure(meta: &mut ConstraintSystem) -> DotProductConfig {
        configure_dot(meta)
    }

    fn synthesize(&self, dot: DotProductConfig, layouter: &mut Layouter) {
        let (q, _) = requantize_raw(raw_dot(&self.a, &self.b)).unwrap();
        dot_rows(layouter, &dot, &self.a, &self.b, q.raw() + 1);
    }
}

#[test]
fn dot_product_with_forged_final_quotient_is_rejected() {
    let (a, b) = mixed_operands();
    assert!(run(10, &ForgedDot { a, b }, &[]).verify().is_err());
}

struct MismatchedDot {
    a: Vec<I18>,
    b: Vec<I18>,
}

impl Layout for MismatchedDot {
    type Config = DotProductConfig;

    fn configure(meta: &mut ConstraintSystem) -> DotProductConfig {
        configure_dot(meta)
    }

    fn synthesize(&self, dot: DotProductConfig, layouter: &mut Layouter) {
        let (q, _) = requantize_raw(raw_dot(&self.a, &self.b)).unwrap();
        let (q_cell, r_cell, slack_cell, r) =
            dot_rows(layouter, &dot, &self.a, &self.b, q.raw());
        let r_range = range(layouter, dot.range_r, r);
        let slack_range = range(layouter, dot.range_r_slack, SCALE_18 - 1 - r);
        let q_range = range(layouter, dot.range_q, shifted_raw(0));
        link(layouter, &[(q_cell, q_range), (r_cell, r_range), (slack_cell, slack_range)]);
    }
}

#[test]
fn dot_product_constrain_equal_rejects_mismatched_range_check_witness() {
    let (a, b) = mixed_operands();
    assert!(
        run(10, &MismatchedDot { a, b }, &[]).verify().is_err(),
        "a q cell tied to a mismatched decoy must be rejected"
    );
}

struct OutOfRangeDot {
    a_raw: Vec<i128>,
    b_raw: Vec<i128>,
    forge: Forge,
}

impl Layout for OutOfRangeDot {
    type Config = DotProductConfig;

    fn configure(meta: &mut ConstraintSystem) -> DotProductConfig {
        configure_dot(meta)
    }

    fn synthesize(&self, dot: DotProductConfig, layouter: &mut Layouter) {
        let region = layouter.region();
        let mut acc = 0i128;
        let mut shifts: Vec<(Cell, Cell)> = Vec::new();
        for i in 0..K {
            let (a, b) = (self.a_raw[i], self.b_raw[i]);
            layouter.assign_advice(region, dot.a, i, i128_to_fr(a));
            layouter.assign_advice(region, dot.b, i, i128_to_fr(b));
            layouter.enable(region, dot.s_shift, i);
            let a_shift = i128_to_fr(self.forge.on_row(a));
            let b_shift = i128_to_fr(self.forge.on_row(b));
            shifts.push((
                layouter.assign_advice(region, dot.a_shift, i, a_shift).cell,
                layouter.assign_advice(region, dot.b_shift, i, b_shift).cell,
            ));
            acc += a * b;
            layouter.assign_advice(region, dot.accumulator, i, i128_to_fr(acc));
            layouter.enable(region, if i == 0 { dot.s_acc_start } else { dot.s_acc_step }, i);
        }
        let (q, r) = requantize_raw(acc).unwrap();
        let slack = SCALE_18 - 1 - r;
        layouter.enable(region, dot.s_final, K - 1);
        layouter.enable(region, dot.s_slack, K - 1);
        let q_cell = layouter.assign_advice(region, dot.q, K - 1, shifted(q.raw())).cell;
        let r_cell = layouter.assign_advice(region, dot.r, K - 1, i128_to_fr(r)).cell;
        let slack_cell = layouter.assign_advice(region, dot.slack, K - 1, i128_to_fr(slack)).cell;

        LookupRangeCheckChip::construct(dot.range_a).load_table(layouter);
        LookupRangeCheckChip::construct(dot.range_b).load_table(layouter);
        let mut links: Vec<(Cell, Cell)> = Vec::new();
        for i in 0..K {
            let a_range = limbs(layouter, dot.range_a, self.forge.in_check(self.a_raw[i]));
            links.push((shifts[i].0, a_range));
            let b_range = limbs(layouter, dot.range_b, self.forge.in_check(self.b_raw[i]));
            links.push((shifts[i].1, b_range));
        }
        links.push((q_cell, range(layouter, dot.range_q, shifted_raw(q.raw()))));
        links.push((r_cell, range(layouter, dot.range_r, r)));
        links.push((slack_cell, range(layouter, dot.range_r_slack, slack)));
        link(layouter, &links);
    }
}

#[test]
fn dot_product_rejects_out_of_range_operand() {
    for forge in FORGES {
        let circuit = OutOfRangeDot {
            a_raw: vec![10 * SCALE_18, 0, 0],
            b_raw: vec![1, 0, 0],
            forge,
        };
        assert!(
            run(11, &circuit, &[]).verify().is_err(),
            "an operand above i64::MAX must not satisfy the circuit ({forge:?})"
        );
    }
}

#[test]
fn dot_products_out_of_range_are_errors_and_lay_nothing_out() {
    let mut meta = ConstraintSystem::new();
    let chip = DotProductChip::construct(configure_dot(&mut meta));
    let mut layouter = Layouter::new(true);
    // 8 * 8 is no number of this format, though its raw product fits 128 bits.
    let e = chip.assign(&mut layouter, vector(&[8.0, 0.0, 0.0]), vector(&[8.0, 0.0, 0.0]));
    assert!(matches!(e, Err(DotProductError::Overflow(_))));
    // The raw products of the extremes do not add up within 128 bits.
    let least = vec![I18::from_raw(i64::MIN); K];
    let e = chip.assign(&mut layouter, least.clone(), least);
    assert!(matches!(e, Err(DotProductError::Overflow(_))));
    assert!(layouter.ops.is_empty());
}

// ---- Sums and means ----

fn summands() -> Vec<I18> {
    vector(&[2.0, -1.5, 3.25, -0.75])
}

fn configure_sum(meta: &mut ConstraintSystem) -> ReduceSumConfig {
    let c = columns(meta, 4);
    ReduceSumChip::configure(meta, c[0], c[1], c[2], c[3], 4)
}

struct SumTest {
    inputs: Vec<I18>,
}

impl Layout for SumTest {
    type Config = ReduceSumConfig;

    fn configure(meta: &mut ConstraintSystem) -> ReduceSumConfig {
        configure_sum(meta)
    }

    fn synthesize(&self, config: ReduceSumConfig, layouter: &mut Layouter) {
        let (sum, cell, values) = ReduceSumChip::construct(config).assign(layouter, &self.inputs);
        assert_eq!(sum.raw(), raws(&self.inputs).iter().sum::<i64>());
        assert_eq!(cell.value, i64_to_fr(sum.raw()));
        assert_eq!(values.len(), 4);
    }
}

#[test]
fn sum_of_four_mixed_sign_values_is_satisfied() {
    run(12, &SumTest { inputs: summands() }, &[]).assert_satisfied();
}

struct ForgedSum {
    inputs: Vec<I18>,
}

impl Layout for ForgedSum {
    type Config = ReduceSumConfig;

    fn configure(meta: &mut ConstraintSystem) -> ReduceSumConfig {
        configure_sum(meta)
    }

    fn synthesize(&self, sum: ReduceSumConfig, layouter: &mut Layouter) {
        let region = layouter.region();
        let mut running = 0i64;
        for (i, v) in self.inputs.iter().enumerate() {
            layouter.assign_advice(region, sum.values, i, i64_to_fr(v.raw()));
            layouter.enable(region, if i == 0 { sum.s_first } else { sum.s_running }, i);
            running += v.raw();
            // The last running total is off by one.
            let forged = if i == self.inputs.len() - 1 { running + 1 } else { running };
            layouter.assign_advice(region, sum.sum, i, i64_to_fr(forged));
        }
    }
}

#[test]
fn sum_with_forged_running_total_is_rejected() {
    assert!(run(12, &ForgedSum { inputs: summands() }, &[]).verify().is_err());
}

struct MismatchedSum {
    inputs: Vec<I18>,
}

impl Layout for MismatchedSum {
    type Config = ReduceSumConfig;

    fn configure(meta: &mut ConstraintSystem) -> ReduceSumConfig {
        configure_sum(meta)
    }

    fn synthesize(&self, sum: ReduceSumConfig, layouter: &mut Layouter) {
        let region = layouter.region();
        let last = self.inputs.len() - 1;
        let mut running = 0i64;
        for (i, v) in self.inputs.iter().enumerate() {
            layouter.assign_advice(region, sum.values, i, i64_to_fr(v.raw()));
            layouter.enable(region, if i == 0 { sum.s_first } else { sum.s_running }, i);
            running += v.raw();
            layouter.assign_advice(region, sum.sum, i, i64_to_fr(running));
        }
        layouter.enable(region, sum.s_shift, last);
        let cell = layouter.assign_advice(region, sum.sum_shift, last, shifted(running)).cell;
        let decoy = range(layouter, sum.range_sum, shifted_raw(0));
        link(layouter, &[(cell, decoy)]);
    }
}

#[test]
fn sum_constrain_equal_rejects_mismatched_range_check_witness() {
    assert!(
        run(12, &MismatchedSum { inputs: summands() }, &[]).verify().is_err(),
        "a sum_shift cell tied to a mismatched decoy must be rejected"
    );
}

fn configure_mean(meta: &mut ConstraintSystem) -> ReduceMeanConfig {
    let c = columns(meta, 7);
    ReduceMeanChip::configure(meta, c[0], c[1], c[2], c[3], c[4], c[5], c[6], 4, i18(0.25))
}

struct MeanTest {
    inputs: Vec<I18>,
}

impl Layout for MeanTest {
    type Config = ReduceMeanConfig;

    fn configure(meta: &mut ConstraintSystem) -> ReduceMeanConfig {
        configure_mean(meta)
    }

    fn synthesize(&self, config: ReduceMeanConfig, layouter: &mut Layouter) {
        let (mean, cell, _) = ReduceMeanChip::construct(config).assign(layouter, &self.inputs);
        assert_eq!(mean.raw(), 750_000_000_000_000_000);
        assert_eq!(cell.value, shifted(mean.raw()));
    }
}

#[test]
fn mean_of_four_mixed_sign_values_is_satisfied() {
    let inputs = summands();
    run(12, &MeanTest { inputs: inputs.clone() }, &[]).assert_satisfied();
    let expected: f64 = inputs.iter().map(as_f64).sum::<f64>() / 4.0;
    let sum_raw: i64 = raws(&inputs).iter().sum();
    let mean = requantize_mul(I18::from_raw(sum_raw), i18(0.25)).unwrap().0;
    assert!((as_f64(&mean) - expected).abs() < 1e-9);
}

/// The rescaling row of a mean with the given shifted quotient.
fn mean_row(
    layouter: &mut Layouter,
    mean: &ReduceMeanConfig,
    sum: I18,
    q: i64,
    r: i128,
) -> Vec<Cell> {
    row(
        layouter,
        &[mean.s_rescale, mean.s_slack],
        &[
            (mean.sum.sum, i64_to_fr(sum.raw())),
            (mean.q, shifted(q)),
            (mean.r, i128_to_fr(r)),
            (mean.slack, i128_to_fr(SCALE_18 - 1 - r)),
        ],
    )
}

struct ForgedMean {
    inputs: Vec<I18>,
}

impl Layout for ForgedMean {
    type Config = ReduceMeanConfig;

    fn configure(meta: &mut ConstraintSystem) -> ReduceMeanConfig {
        configure_mean(meta)
    }

    fn synthesize(&self, mean: ReduceMeanConfig, layouter: &mut Layouter) {
        let (sum, _, _) = ReduceSumChip::construct(mean.sum).assign(layouter, &self.inputs);
        let (q, r) = requantize_mul(sum, mean.reciprocal).unwrap();
        mean_row(layouter, &mean, sum, q.raw() + 1, r);
    }
}

#[test]
fn mean_with_forged_quotient_is_rejected() {
    assert!(run(12, &ForgedMean { inputs: summands() }, &[]).verify().is_err());
}

struct MismatchedMean {
    inputs: Vec<I18>,
}

impl Layout for MismatchedMean {
    type Config = ReduceMeanConfig;

    fn configure(meta: &mut ConstraintSystem) -> ReduceMeanConfig {
        configure_mean(meta)
    }

    fn synthesize(&self, mean: ReduceMeanConfig, layouter: &mut Layouter) {
        let (sum, sum_cell, _) = ReduceSumChip::construct(mean.sum).assign(layouter, &self.inputs);
        let (q, r) = requantize_mul(sum, mean.reciprocal).unwrap();
        let cells = mean_row(layouter, &mean, sum, q.raw(), r);
        let r_range = range(layouter, mean.range_r, r);
        let slack_range = range(layouter, mean.range_r_slack, SCALE_18 - 1 - r);
        let q_range = range(layouter, mean.range_q, shifted_raw(0));
        link(
            layouter,
            &[
                (cells[0], sum_cell.cell),
                (cells[1], q_range),
                (cells[2], r_range),
                (cells[3], slack_range),
            ],
        );
    }
}

#[test]
fn mean_constrain_equal_rejects_mismatched_range_check_witness() {
    assert!(
        run(12, &MismatchedMean { inputs: summands() }, &[]).verify().is_err(),
        "a q cell tied to a mismatched decoy must be rejected"
    );
}
