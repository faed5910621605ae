//! Programs, their circuits and the commitments to their boundaries.
use halo2_proofs::circuit::{
    Cell as ProverCell, Layouter as ProverLayouter, SimpleFloorPlanner, Value,
};
use halo2_proofs::dev::MockProver;
use halo2_proofs::plonk::{
    Advice, Circuit, Column as ProverColumn, ConstraintSystem as ProverSystem, Error,
    Expression as ProverExpression, Fixed, Instance, Selector as ProverSelector,
    TableColumn as ProverTable, VirtualCells,
};
use halo2_proofs::poly::Rotation;
use halo2curves::bn256::Fr as Scalar;
use zkie_core::assembler::{
    AssemblerChip, AssemblerConfig, AssemblerError, AssemblerInstruction, AssemblerProgram,
    RegisterRef, RmsNormParams,
};
use zkie_core::chips::bridge::assign_bridge;
use zkie_core::chips::eltwise::assign_add_row;
use zkie_core::chips::poseidon_boundary::{
    commit_boundary_native, poseidon_compress_native, BoundaryDescriptor, BoundaryRole,
    PoseidonBoundaryChip, PoseidonBoundaryConfig,
};
use zkie_core::field::Fr;
use zkie_core::field_convert::i64_to_fr;
use zkie_core::fixed_point::{requantize_raw, I18};
use zkie_core::isa::{EltwiseOp, Instruction};
use zkie_core::layout::{Cell, Layouter, Op};
use zkie_core::plonk::{Column, ColumnKind, ConstraintSystem, Expression, Rule};
use zkie_core::program_circuit::{encode_instruction, AssemblerCircuit, AssemblerCircuitConfig};

// ---- Laying the library's circuits out for the mock prover ----

/// A circuit of the library: its constraints and what it lays out.
trait Layout {
    type Config;

    fn configure(meta: &mut ConstraintSystem) -> Self::Config;

    fn synthesize(&self, config: Self::Config, layouter: &mut Layouter);
}

#[derive(Clone)]
struct Columns {
    advice: Vec<ProverColumn<Advice>>,
    fixed: Vec<ProverColumn<Fixed>>,
    instance: Vec<ProverColumn<Instance>>,
    tables: Vec<ProverTable>,
    selectors: Vec<ProverSelector>,
}

fn scalar(value: &Fr) -> Scalar {
    Scalar::from_raw(value.limbs())
}

fn polynomial(
    e: &Expression,
    cells: &mut VirtualCells<'_, Scalar>,
    columns: &Columns,
) -> ProverExpression<Scalar> {
    match e {
        Expression::Constant(c) => ProverExpression::Constant(scalar(c)),
        Expression::Query { column, rotation } => match column.kind {
            ColumnKind::Advice => {
                cells.query_advice(columns.advice[column.index], Rotation(*rotation))
            }
            ColumnKind::Fixed => {
                assert_eq!(*rotation, 0);
                cells.query_fixed(columns.fixed[column.index])
            }
            ColumnKind::Instance => {
                cells.query_instance(columns.instance[column.index], Rotation(*rotation))
            }
        },
        Expression::Sum(a, b) => polynomial(a, cells, columns) + polynomial(b, cells, columns),
        Expression::Difference(a, b) => {
            polynomial(a, cells, columns) - polynomial(b, cells, columns)
        }
        Expression::Product(a, b) => polynomial(a, cells, columns) * polynomial(b, cells, columns),
    }
}

fn declare(meta: &mut ProverSystem<Scalar>, cs: &ConstraintSystem) -> Columns {
    let mut columns = Columns {
        advice: (0..cs.advice).map(|_| meta.advice_column()).collect(),
        fixed: (0..cs.fixed).map(|_| meta.fixed_column()).collect(),
        instance: (0..cs.instance).map(|_| meta.instance_column()).collect(),
        tables: (0..cs.tables).map(|_| meta.lookup_table_column()).collect(),
        selectors: Vec::new(),
    };
    for column in &cs.equality {
        match column.kind {
            ColumnKind::Advice => meta.enable_equality(columns.advice[column.index]),
            ColumnKind::Fixed => meta.enable_equality(columns.fixed[column.index]),
            ColumnKind::Instance => meta.enable_equality(columns.instance[column.index]),
        }
    }
    for column in &cs.constants {
        meta.enable_constant(columns.fixed[column.index]);
    }
    for rule in &cs.rules {
        match rule {
            Rule::Gate(polynomials) => {
                let selector = meta.selector();
                meta.create_gate("gate", |cells| {
                    let on = cells.query_selector(selector);
                    polynomials
                        .iter()
                        .map(|p| on.clone() * polynomial(p, cells, &columns))
                        .collect::<Vec<_>>()
                });
                columns.selectors.push(selector);
            }
            Rule::Lookup(inputs) => {
                let selector = meta.complex_selector();
                meta.lookup(|cells| {
                    let on = cells.query_selector(selector);
                    let off = ProverExpression::Constant(Scalar::one()) - on.clone();
                    inputs
                        .iter()
                        .map(|input| {
                            let value = on.clone() * polynomial(&input.expression, cells, &columns)
                                + off.clone()
                                    * ProverExpression::Constant(scalar(&input.default));
                            (value, columns.tables[input.table.0])
                        })
                        .collect()
                });
                columns.selectors.push(selector);
            }
        }
    }
    columns
}

/// The steps of a table, or of a region with its name.
struct Group {
    table: bool,
    region: Option<usize>,
    ops: Vec<Op>,
}

fn groups(ops: &[Op]) -> Vec<Group> {
    let mut all: Vec<Group> = Vec::new();
    for (i, op) in ops.iter().enumerate() {
        let row = matches!(op, Op::TableRow { .. });
        match op {
            Op::Region => all.push(Group { table: false, region: Some(i), ops: vec![] }),
            Op::Table => all.push(Group { table: true, region: None, ops: vec![] }),
            _ => {
                if all.last().map_or(true, |g| g.table != row) {
                    all.push(Group { table: row, region: None, ops: vec![] });
                }
                all.last_mut().unwrap().ops.push(*op);
            }
        }
    }
    all
}

fn replay(
    log: &Layouter,
    columns: &Columns,
    mut layouter: impl ProverLayouter<Scalar>,
) -> Result<(), Error> {
    let witness = |v: &Fr| {
        if log.known {
            Value::known(scalar(v))
        } else {
            Value::unknown()
        }
    };
    let mut cells: Vec<(Cell, ProverCell)> = Vec::new();
    let find = |cells: &Vec<(Cell, ProverCell)>, c: &Cell| {
        cells[cells.iter().rposition(|(at, _)| at == c).expect("an assigned cell")].1
    };
    for group in groups(&log.ops) {
        if group.table {
            layouter.assign_table(
                || "table",
                |mut table| {
                    for op in &group.ops {
                        if let Op::TableRow { table: column, row, value } = op {
                            let v = Value::known(scalar(value));
                            table.assign_cell(|| "row", columns.tables[column.0], *row, || v)?;
                        }
                    }
                    Ok(())
                },
            )?;
            continue;
        }
        layouter.assign_region(
            || "region",
            |mut region| {
                for op in &group.ops {
                    match op {
                        Op::Enable { region: name, selector, offset } => {
                            assert_eq!(Some(*name), group.region);
                            columns.selectors[selector.0].enable(&mut region, *offset)?;
                        }
                        Op::Advice { cell, value } => {
                            assert_eq!(Some(cell.region), group.region);
                            let assigned = region.assign_advice(
                                || "advice",
                                columns.advice[cell.column.index],
                                cell.offset,
                                || witness(value),
                            )?;
                            cells.push((*cell, assigned.cell()));
                        }
                        Op::Fixed { cell, value } => {
                            assert_eq!(Some(cell.region), group.region);
                            let assigned = region.assign_fixed(
                                || "fixed",
                                columns.fixed[cell.column.index],
                                cell.offset,
                                || Value::known(scalar(value)),
                            )?;
                            cells.push((*cell, assigned.cell()));
                        }
                        Op::Equal { left, right } => {
                            region.constrain_equal(find(&cells, left), find(&cells, right))?;
                        }
                        Op::Constant { cell, value } => {
                            region.constrain_constant(find(&cells, cell), scalar(value))?;
                        }
                        _ => {}
                    }
                }
                Ok(())
            },
        )?;
    }
    for op in &log.ops {
        if let Op::Instance { cell, column, row } = op {
            layouter.constrain_instance(find(&cells, cell), columns.instance[column.index], *row)?;
        }
    }
    Ok(())
}

struct Replay<'a, L>(&'a L);

impl<'a, L: Layout> Circuit<Scalar> for Replay<'a, L> {
    type Config = Columns;
    type FloorPlanner = SimpleFloorPlanner;

    fn without_witnesses(&self) -> Self {
        Replay(self.0)
    }

    fn configure(meta: &mut ProverSystem<Scalar>) -> Columns {
        let mut cs = ConstraintSystem::new();
        L::configure(&mut cs);
        declare(meta, &cs)
    }

    fn synthesize(
        &self,
        columns: Columns,
        layouter: impl ProverLayouter<Scalar>,
    ) -> Result<(), Error> {
        let mut cs = ConstraintSystem::new();
        let config = L::configure(&mut cs);
        let mut log = Layouter::new(true);
        self.0.synthesize(config, &mut log);
        replay(&log, &columns, layouter)
    }
}

fn run<L: Layout>(k: u32, layout: &L, publics: &[Fr]) -> MockProver<Scalar> {
    let mut cs = ConstraintSystem::new();
    L::configure(&mut cs);
    let instance = if cs.instance == 0 {
        vec![]
    } else {
        vec![publics.iter().map(scalar).collect()]
    };
    MockProver::run(k, &Replay(layout), instance).unwrap()
}

// ---- Numbers ----

const ONE: f64 = 1_000_000_000_000_000_000.0;

fn i18(v: f64) -> I18 {
    let scaled = (v * ONE).round();
    assert!(scaled.is_finite() && scaled >= i64::MIN as f64 && scaled <= i64::MAX as f64);
    I18::from_raw(scaled as i64)
}

fn as_f64(x: &I18) -> f64 {
    x.raw() as f64 / ONE
}

fn vector(vs: &[f64]) -> Vec<I18> {
    vs.iter().map(|v| i18(*v)).collect()
}

fn raws(vs: &[I18]) -> Vec<i64> {
    vs.iter().map(|v| v.raw()).collect()
}

fn dot(m: usize, n: usize, k: usize, inputs: Vec<RegisterRef>) -> AssemblerInstruction {
    AssemblerInstruction {
        instruction: Instruction::DotGeneral {
            m,
            n,
            k,
            batch_dims: vec![],
            trans_a: false,
            trans_b: false,
        },
        inputs,
    }
}

fn eltwise(op: EltwiseOp, a: RegisterRef, b: RegisterRef) -> AssemblerInstruction {
    AssemblerInstruction { instruction: Instruction::Eltwise { op }, inputs: vec![a, b] }
}

fn raw_dot(a: &[I18], b: &[I18]) -> i128 {
    a.iter().zip(b.iter()).map(|(x, y)| (x.raw() as i128) * (y.raw() as i128)).sum()
}

fn link(layouter: &mut Layouter, left: Cell, right: Cell) {
    layouter.region();
    layouter.constrain_equal(left, right);
}

/// Lays a program out and returns its virtual registers.
fn lay_out(
    config: AssemblerConfig,
    layouter: &mut Layouter,
    program: &AssemblerProgram,
) -> Vec<Vec<I18>> {
    let chip = AssemblerChip::construct(config);
    chip.load_range_tables(layouter);
    chip.load_rms_norm_tables(layouter);
    assert!(chip.in_range(program));
    chip.assign(layouter, program).unwrap()
}

// ---- Single instructions ----

struct DotOnly {
    program: AssemblerProgram,
}

fn lone_dot() -> AssemblerInstruction {
    dot(1, 1, 3, vec![RegisterRef::Input(0), RegisterRef::Input(1)])
}

impl Layout for DotOnly {
    type Config = AssemblerConfig;

    fn configure(meta: &mut ConstraintSystem) -> AssemblerConfig {
        AssemblerChip::configure(meta, &vec![lone_dot()])
    }

    fn synthesize(&self, config: AssemblerConfig, layouter: &mut Layouter) {
        let virtuals = lay_out(config, layouter, &self.program);
        assert_eq!(raws(&virtuals[0]), vec![-6_000_000_000_000_000_000]);
    }
}

#[test]
fn lone_dot_general_instruction_is_satisfied_and_correct() {
    let a = vector(&[2.0, -3.0, 1.5]);
    let b = vector(&[3.0, 2.0, -4.0]);
    let (expected, _) = requantize_raw(raw_dot(&a, &b)).unwrap();
    let program = AssemblerProgram {
        instructions: vec![lone_dot()],
        input_values: vec![a, b],
        weight_values: vec![],
    };
    run(12, &DotOnly { program }, &[]).assert_satisfied();
    assert!((as_f64(&expected) - (-6.0)).abs() < 1e-9);
}

struct EltwiseOnly {
    program: AssemblerProgram,
    expected: I18,
}

impl Layout for EltwiseOnly {
    type Config = AssemblerConfig;

    fn configure(meta: &mut ConstraintSystem) -> AssemblerConfig {
        // Additions and multiplications share one configuration.
        let instruction =
            eltwise(EltwiseOp::Add, RegisterRef::Input(0), RegisterRef::Input(1));
        AssemblerChip::configure(meta, &vec![instruction])
    }

    fn synthesize(&self, config: AssemblerConfig, layouter: &mut Layouter) {
        assert_eq!(lay_out(config, layouter, &self.program), vec![vec![self.expected]]);
    }
}

fn eltwise_only(op: EltwiseOp, a: f64, b: f64, expected: f64) -> EltwiseOnly {
    EltwiseOnly {
        program: AssemblerProgram {
            instructions: vec![eltwise(op, RegisterRef::Input(0), RegisterRef::Input(1))],
            input_values: vec![vector(&[a]), vector(&[b])],
            weight_values: vec![],
        },
        expected: i18(expected),
    }
}

#[test]
fn lone_eltwise_add_instruction_is_satisfied_and_correct() {
    let circuit = eltwise_only(EltwiseOp::Add, 2.0, 3.5, 5.5);
    run(12, &circuit, &[]).assert_satisfied();
}

#[test]
fn lone_eltwise_mul_instruction_is_satisfied_and_correct() {
    let circuit = eltwise_only(EltwiseOp::Mul, 2.0, 3.0, 6.0);
    run(12, &circuit, &[]).assert_satisfied();
}

// ---- A linear layer ----

fn linear_layer() -> Vec<AssemblerInstruction> {
    vec![
        dot(2, 2, 2, vec![RegisterRef::Input(0), RegisterRef::Weight(0)]),
        eltwise(EltwiseOp::Add, RegisterRef::Virtual(0), RegisterRef::Weight(1)),
    ]
}

fn linear_layer_program() -> AssemblerProgram {
    AssemblerProgram {
        instructions: linear_layer(),
        input_values: vec![vector(&[0.5, -0.25, 0.25, 0.5])],
        weight_values: vec![vector(&[1.0, 0.5, -0.5, 1.0]), vector(&[0.1, -0.2])],
    }
}

/// `x W + b`, with `b` repeated for each row.
fn expected_linear_layer(x: &[I18], w: &[I18], b: &[I18], m: usize, n: usize, k: usize) -> Vec<I18> {
    let mut y: Vec<I18> = Vec::new();
    for i in 0..m {
        for j in 0..n {
            let sum: i128 = (0..k)
                .map(|l| (x[i * k + l].raw() as i128) * (w[l * n + j].raw() as i128))
                .sum();
            y.push(requantize_raw(sum).unwrap().0);
        }
    }
    y.iter()
        .enumerate()
        .map(|(at, v)| I18::from_raw(v.raw() + b[at % b.len()].raw()))
        .collect()
}

struct LinearLayer {
    program: AssemblerProgram,
}

impl Layout for LinearLayer {
    type Config = AssemblerConfig;

    fn configure(meta: &mut ConstraintSystem) -> AssemblerConfig {
        AssemblerChip::configure(meta, &linear_layer())
    }

    fn synthesize(&self, config: AssemblerConfig, layouter: &mut Layouter) {
        let virtuals = lay_out(config, layouter, &self.program);
        let expected = expected_linear_layer(
            &self.program.input_values[0],
            &self.program.weight_values[0],
            &self.program.weight_values[1],
            2,
            2,
            2,
        );
        assert_eq!(virtuals[1], expected);
    }
}

#[test]
fn linear_layer_end_to_end_is_satisfied_and_numerically_correct() {
    let program = linear_layer_program();
    let expected = expected_linear_layer(
        &program.input_values[0],
        &program.weight_values[0],
        &program.weight_values[1],
        2,
        2,
        2,
    );
    run(12, &LinearLayer { program }, &[]).assert_satisfied();
    for (got, want) in expected.iter().zip([0.725, -0.2, 0.1, 0.425].iter()) {
        assert!((as_f64(got) - want).abs() < 1e-9, "{} vs {}", as_f64(got), want);
    }
}

struct MismatchedWiring {
    program: AssemblerProgram,
}

impl Layout for MismatchedWiring {
    type Config = AssemblerConfig;

    fn configure(meta: &mut ConstraintSystem) -> AssemblerConfig {
        AssemblerChip::configure(meta, &linear_layer())
    }

    fn synthesize(&self, config: AssemblerConfig, layouter: &mut Layouter) {
        let bridge = config.bridge;
        let add = config.add;
        let chip = AssemblerChip::construct(config);
        chip.load_range_tables(layouter);
        // The product is laid out as it should be.
        let product = AssemblerProgram {
            instructions: vec![self.program.instructions[0].clone()],
            input_values: self.program.input_values.clone(),
            weight_values: self.program.weight_values.clone(),
        };
        let assigned = chip.assign_with_cells(layouter, &product).unwrap();
        let y = assigned.virtuals[0].values[0];
        let y_cell = assigned.virtuals[0].cells[0].cell;
        // A decoy takes its place in the sum, but is linked to it.
        let decoy = y.raw() + 1;
        let (decoy_unshifted, decoy_shifted) = assign_bridge(&bridge, layouter, decoy);
        link(layouter, decoy_unshifted.cell, y_cell);
        let b = self.program.weight_values[1][0].raw();
        let sum = assign_add_row(&add, layouter, decoy, b);
        link(layouter, sum.a.cell, decoy_shifted.cell);
    }
}

#[test]
fn dot_general_to_eltwise_add_constrain_equal_rejects_mismatched_decoy_value() {
    let circuit = MismatchedWiring { program: linear_layer_program() };
    assert!(
        run(12, &circuit, &[]).verify().is_err(),
        "a decoy wired into the sum must be rejected"
    );
}

// ---- Transposed products and root mean squares ----

fn transposed() -> Vec<AssemblerInstruction> {
    vec![AssemblerInstruction {
        instruction: Instruction::DotGeneral {
            m: 2,
            n: 1,
            k: 2,
            batch_dims: vec![],
            trans_a: true,
            trans_b: true,
        },
        inputs: vec![RegisterRef::Input(0), RegisterRef::Input(1)],
    }]
}

struct Transposed;

impl Layout for Transposed {
    type Config = AssemblerConfig;

    fn configure(meta: &mut ConstraintSystem) -> AssemblerConfig {
        AssemblerChip::configure(meta, &transposed())
    }

    fn synthesize(&self, config: AssemblerConfig, layouter: &mut Layouter) {
        // The columns (1, 2) and (0.5, -1) of the first operand, against (2, 0.5).
        let program = AssemblerProgram {
            instructions: transposed(),
            input_values: vec![vector(&[1.0, 0.5, 2.0, -1.0]), vector(&[2.0, 0.5])],
            weight_values: vec![],
        };
        let virtuals = lay_out(config, layouter, &program);
        assert_eq!(virtuals, vec![vector(&[3.0, 0.5])]);
    }
}

#[test]
fn transposed_operands_are_read_by_columns() {
    run(12, &Transposed, &[]).assert_satisfied();
}

fn rms_norm_program() -> AssemblerProgram {
    AssemblerProgram {
        instructions: vec![AssemblerInstruction {
            instruction: Instruction::RmsNorm { dim: 4, epsilon_milli: 10 },
            inputs: vec![RegisterRef::Input(0), RegisterRef::Weight(0)],
        }],
        input_values: vec![vector(&[-1.5, -0.5, 0.5, 1.5])],
        weight_values: vec![vector(&[1.0, 2.0, 0.5, -1.0])],
    }
}

fn rms_norm_params() -> Vec<RmsNormParams> {
    vec![RmsNormParams {
        dim: 4,
        epsilon_milli: 10,
        reciprocal: i18(0.25),
        epsilon: i18(0.01),
        points: vec![i18(1.26)],
        values: vec![i18(1.0 / 1.26f64.sqrt())],
    }]
}

struct RmsNormOnly;

impl Layout for RmsNormOnly {
    type Config = AssemblerConfig;

    fn configure(meta: &mut ConstraintSystem) -> AssemblerConfig {
        AssemblerChip::configure_with_rms_norm_domains(
            meta,
            &rms_norm_program().instructions,
            &rms_norm_params(),
        )
    }

    fn synthesize(&self, config: AssemblerConfig, layouter: &mut Layouter) {
        let virtuals = lay_out(config, layouter, &rms_norm_program());
        let root = 1.0 / 1.26f64.sqrt();
        for (got, want) in virtuals[0].iter().zip([-1.5, -1.0, 0.25, -1.5].iter()) {
            assert!((as_f64(got) - want * root).abs() < 1e-9);
        }
    }
}

#[test]
fn lone_rms_norm_instruction_is_satisfied_and_correct() {
    run(13, &RmsNormOnly, &[]).assert_satisfied();
}

// ---- Errors of a program ----

fn program_error(
    configured: Vec<AssemblerInstruction>,
    program: AssemblerProgram,
) -> AssemblerError {
    let mut meta = ConstraintSystem::new();
    let chip = AssemblerChip::construct(AssemblerChip::configure(&mut meta, &configured));
    let mut layouter = Layouter::new(true);
    match chip.assign(&mut layouter, &program) {
        Err(e) => {
            assert!(!e.message().is_empty());
            e
        }
        Ok(_) => panic!("the program must be refused"),
    }
}

fn on_inputs(instruction: AssemblerInstruction, inputs: Vec<Vec<I18>>) -> AssemblerError {
    let program = AssemblerProgram {
        instructions: vec![instruction],
        input_values: inputs,
        weight_values: vec![],
    };
    program_error(vec![lone_dot()], program)
}

#[test]
fn a_program_names_what_is_wrong_with_it() {
    let three = vector(&[1.0, 1.0, 1.0]);
    let (a, b) = (RegisterRef::Input(0), RegisterRef::Input(1));
    assert!(matches!(
        on_inputs(dot(1, 1, 2, vec![a, b]), vec![vector(&[1.0, 1.0]), vector(&[1.0, 1.0])]),
        AssemblerError::UnconfiguredDotK { k: 2 }
    ));
    assert!(matches!(
        on_inputs(lone_dot(), vec![three.clone()]),
        AssemblerError::RegisterIndexOutOfRange { kind: "input", index: 1 }
    ));
    assert!(matches!(
        on_inputs(dot(1, 1, 3, vec![a]), vec![three.clone()]),
        AssemblerError::DotGeneralInputCount { expected: 2, got: 1 }
    ));
    assert!(matches!(
        on_inputs(lone_dot(), vec![three.clone(), vector(&[1.0])]),
        AssemblerError::DotGeneralShapeMismatch {
            expected_a: 3,
            got_a: 3,
            expected_b: 3,
            got_b: 1,
        }
    ));
    assert!(matches!(
        on_inputs(
            AssemblerInstruction {
                instruction: Instruction::DotGeneral {
                    m: 1,
                    n: 1,
                    k: 3,
                    batch_dims: vec![2],
                    trans_a: false,
                    trans_b: false,
                },
                inputs: vec![a, b],
            },
            vec![three.clone(), three.clone()],
        ),
        AssemblerError::DotGeneralBatchDimsUnsupported
    ));
    assert!(matches!(
        on_inputs(
            AssemblerInstruction {
                instruction: Instruction::Eltwise { op: EltwiseOp::Add },
                inputs: vec![a],
            },
            vec![three.clone()],
        ),
        AssemblerError::EltwiseInputCount { expected: 2, got: 1 }
    ));
    assert!(matches!(
        on_inputs(
            eltwise(EltwiseOp::Add, a, b),
            vec![three.clone(), vector(&[1.0, 1.0])],
        ),
        AssemblerError::EltwiseLengthMismatch { a_len: 3, b_len: 2 }
    ));
    assert!(matches!(
        on_inputs(
            AssemblerInstruction { instruction: Instruction::Gelu, inputs: vec![a] },
            vec![three.clone()],
        ),
        AssemblerError::UnsupportedInstruction(_)
    ));
    let rms_norm = |inputs: Vec<RegisterRef>| AssemblerInstruction {
        instruction: Instruction::RmsNorm { dim: 3, epsilon_milli: 10 },
        inputs,
    };
    assert!(matches!(
        on_inputs(rms_norm(vec![a]), vec![three.clone()]),
        AssemblerError::RmsNormInputCount { expected: 2, got: 1 }
    ));
    assert!(matches!(
        on_inputs(rms_norm(vec![a, b]), vec![three.clone(), vector(&[1.0])]),
        AssemblerError::RmsNormShapeMismatch { dim: 3, got_x: 3, got_weight: 1 }
    ));
    assert!(matches!(
        on_inputs(rms_norm(vec![a, b]), vec![three.clone(), three.clone()]),
        AssemblerError::UnconfiguredRmsNorm { dim: 3, epsilon_milli: 10 }
    ));
    // A sum of numbers that is none itself.
    assert!(matches!(
        on_inputs(eltwise(EltwiseOp::Add, a, a), vec![vector(&[9.0])]),
        AssemblerError::Overflow(_)
    ));
}

// ---- Program circuits ----

const UNIT: i64 = 1_000_000_000_000_000_000;

fn dot_program(k: usize) -> AssemblerProgram {
    AssemblerProgram {
        instructions: vec![dot(1, 1, k, vec![RegisterRef::Input(0), RegisterRef::Weight(0)])],
        input_values: vec![vec![I18::from_raw(UNIT); k]],
        weight_values: vec![vec![I18::from_raw(UNIT); k]],
    }
}

fn dot_publics(k: usize) -> Vec<Fr> {
    let mut publics = vec![i64_to_fr(UNIT); 2 * k];
    publics.push(i64_to_fr(k as i64 * UNIT));
    publics
}

struct DotCircuit<const SIZE: usize>;

impl<const SIZE: usize> DotCircuit<SIZE> {
    fn circuit() -> AssemblerCircuit {
        AssemblerCircuit::new(dot_program(SIZE), Default::default())
    }
}

impl<const SIZE: usize> Layout for DotCircuit<SIZE> {
    type Config = AssemblerCircuitConfig;

    fn configure(meta: &mut ConstraintSystem) -> AssemblerCircuitConfig {
        AssemblerCircuit::configure_with_params(meta, Self::circuit().params(), &vec![])
    }

    fn synthesize(&self, config: AssemblerCircuitConfig, layouter: &mut Layouter) {
        Self::circuit().synthesize(&config, layouter).unwrap();
    }
}

#[test]
fn runtime_params_configure_distinct_program_shapes() {
    run(10, &DotCircuit::<2>, &dot_publics(2)).assert_satisfied();
    run(10, &DotCircuit::<3>, &dot_publics(3)).assert_satisfied();
    let k2 = DotCircuit::<2>::circuit();
    let k3 = DotCircuit::<3>::circuit();
    assert_ne!(k2.params().shape_digest(), k3.params().shape_digest());
}

#[test]
fn a_changed_public_value_is_rejected() {
    for at in 0..5 {
        let mut publics = dot_publics(2);
        publics[at] = publics[at].plus(&Fr::one());
        assert!(run(10, &DotCircuit::<2>, &publics).verify().is_err());
    }
}

/// The dot circuit with the shifted copy of one operand changed.
struct ShiftedOperand(bool);

impl Layout for ShiftedOperand {
    type Config = AssemblerCircuitConfig;

    fn configure(meta: &mut ConstraintSystem) -> AssemblerCircuitConfig {
        DotCircuit::<2>::configure(meta)
    }

    fn synthesize(&self, config: AssemblerCircuitConfig, layouter: &mut Layouter) {
        let dot = config.assembler.config.dot[0];
        let column = if self.0 { dot.a_shift } else { dot.b_shift };
        DotCircuit::<2>.synthesize(config, layouter);
        let mut found = false;
        for op in layouter.ops.iter_mut() {
            if let Op::Advice { cell, value } = op {
                if cell.column == column && !found {
                    *value = value.plus(&Fr::one());
                    found = true;
                }
            }
        }
        assert!(found, "every operand has a shifted copy");
    }
}

#[test]
fn the_operands_of_an_assembled_dot_product_are_checked() {
    assert!(run(10, &ShiftedOperand(true), &dot_publics(2)).verify().is_err());
    assert!(run(10, &ShiftedOperand(false), &dot_publics(2)).verify().is_err());
}

#[test]
fn without_witnesses_keeps_shape_and_marks_witnesses_unknown() {
    let circuit = DotCircuit::<2>::circuit();
    let blank = circuit.without_witnesses();
    assert_eq!(circuit.params().shape_digest(), blank.params().shape_digest());
    assert!(circuit.has_known_witnesses());
    assert!(!blank.has_known_witnesses());
    assert_eq!(blank.program.input_values.len(), 1);
    assert_eq!(blank.program.input_values[0].len(), 2);
    assert_eq!(blank.program.weight_values.len(), 1);
    assert_eq!(blank.program.weight_values[0].len(), 2);
}

/// Two records with the same regions, selectors, links and fixed values.
fn same_shape(x: &Layouter, y: &Layouter) -> bool {
    x.ops.len() == y.ops.len()
        && x.ops.iter().zip(y.ops.iter()).all(|(a, b)| match (a, b) {
            (Op::Advice { cell: c, .. }, Op::Advice { cell: d, .. }) => c == d,
            _ => a == b,
        })
}

#[test]
fn a_circuit_without_witnesses_has_the_same_layout() {
    let circuit = DotCircuit::<2>::circuit();
    let blank = circuit.without_witnesses();
    let mut meta = ConstraintSystem::new();
    let config = AssemblerCircuit::configure_with_params(&mut meta, circuit.params(), &vec![]);
    let mut known = Layouter::new(true);
    circuit.synthesize(&config, &mut known).unwrap();
    let mut unknown = Layouter::new(false);
    blank.synthesize(&config, &mut unknown).unwrap();
    assert!(same_shape(&known, &unknown));
}

#[test]
fn a_record_has_witnesses_only_if_the_circuit_has() {
    let circuit = DotCircuit::<2>::circuit();
    let blank = circuit.without_witnesses();
    let mut meta = ConstraintSystem::new();
    let config = AssemblerCircuit::configure_with_params(&mut meta, circuit.params(), &vec![]);
    let known = |circuit: &AssemblerCircuit, asked: bool| {
        let mut layouter = Layouter::new(asked);
        circuit.synthesize(&config, &mut layouter).unwrap();
        layouter.known
    };
    assert!(known(&circuit, true));
    assert!(!known(&circuit, false));
    assert!(!known(&blank, true));
    assert!(!known(&blank, false));
}

#[test]
fn no_instruction_begins_another() {
    let all: Vec<Vec<u8>> = [
        eltwise(EltwiseOp::Add, RegisterRef::Virtual(0), RegisterRef::Virtual(0)),
        eltwise(EltwiseOp::Mul, RegisterRef::Virtual(0), RegisterRef::Virtual(0)),
        eltwise(EltwiseOp::Add, RegisterRef::Input(0), RegisterRef::Virtual(0)),
        dot_program(2).instructions[0].clone(),
        dot_program(3).instructions[0].clone(),
    ]
    .iter()
    .map(|instruction| {
        let mut bytes = Vec::new();
        encode_instruction(&mut bytes, instruction);
        bytes
    })
    .collect();
    for (i, a) in all.iter().enumerate() {
        for (j, b) in all.iter().enumerate() {
            assert_eq!(b.starts_with(a), i == j);
        }
    }
}

#[test]
fn public_output_selection_is_validated_and_shape_bound() {
    let mut program = dot_program(2);
    program.instructions.push(eltwise(
        EltwiseOp::Add,
        RegisterRef::Virtual(0),
        RegisterRef::Virtual(0),
    ));
    let select = |outputs: Vec<usize>| {
        AssemblerCircuit::new_with_public_outputs(program.clone(), Default::default(), outputs)
    };
    let first = select(vec![0]).unwrap();
    let second = select(vec![1]).unwrap();
    assert_ne!(first.params().shape_digest(), second.params().shape_digest());
    assert!(select(vec![0, 0]).is_err());
    assert!(select(vec![2]).is_err());
}

#[test]
fn plain_configure_is_an_empty_shape_compatibility_fallback() {
    let mut meta = ConstraintSystem::new();
    let _ = AssemblerCircuit::configure(&mut meta);
    assert!(meta.instance == 1);
}

// ---- Boundary commitments ----

fn input_descriptor() -> BoundaryDescriptor {
    BoundaryDescriptor::flat_i18(
        BoundaryRole::Input,
        "graph-input:x",
        Vec::new(),
        Vec::new(),
        2,
        UNIT as u64,
    )
    .unwrap()
}

fn output_descriptor() -> BoundaryDescriptor {
    BoundaryDescriptor::flat_i18(
        BoundaryRole::Output,
        "virtual:0",
        Vec::new(),
        vec!["y".to_string()],
        1,
        UNIT as u64,
    )
    .unwrap()
}

fn committed(program: AssemblerProgram) -> AssemblerCircuit {
    AssemblerCircuit::new_with_boundary_commitments(
        program,
        Default::default(),
        vec![input_descriptor()],
        vec![(0, output_descriptor())],
        vec![Fr::from_u64(42); 17],
    )
    .unwrap()
}

struct Committed;

impl Layout for Committed {
    type Config = AssemblerCircuitConfig;

    fn configure(meta: &mut ConstraintSystem) -> AssemblerCircuitConfig {
        AssemblerCircuit::configure_with_params(
            meta,
            committed(dot_program(2)).params(),
            &vec![],
        )
    }

    fn synthesize(&self, config: AssemblerCircuitConfig, layouter: &mut Layouter) {
        committed(dot_program(2)).synthesize(&config, layouter).unwrap();
    }
}

fn committed_publics() -> Vec<Fr> {
    let program = dot_program(2);
    let (input, output) = (input_descriptor(), output_descriptor());
    let input_commitment = commit_boundary_native(&input, &program.input_values[0]).unwrap();
    let input_binding = input.public_binding_fields();
    let result = vec![I18::from_raw(2 * UNIT)];
    let output_commitment = commit_boundary_native(&output, &result).unwrap();
    let output_binding = output.public_binding_fields();
    let one = i64_to_fr(UNIT);
    let mut publics = vec![Fr::from_u64(42); 17];
    publics.extend([
        input_binding[0],
        input_binding[1],
        input_commitment,
        Fr::from_u64(1),
        output_binding[0],
        output_binding[1],
        output_commitment,
        Fr::from_u64(2),
        one,
        one,
    ]);
    publics
}

#[test]
fn boundary_commitments_use_exact_assembler_cells() {
    let mut altered_program = dot_program(2);
    altered_program.weight_values[0][0] = I18::from_raw(2 * UNIT);
    assert_ne!(
        committed(dot_program(2)).params().shape_digest(),
        committed(altered_program).params().shape_digest(),
        "fixed weights must be part of the shape",
    );
    run(12, &Committed, &committed_publics()).assert_satisfied();
}

#[test]
fn a_changed_commitment_is_rejected() {
    // The prefix, both bindings, both commitments, both counts and both weights.
    for at in [0, 16, 17, 18, 19, 20, 21, 22, 23, 24, 25, 26] {
        let mut publics = committed_publics();
        publics[at] = publics[at].plus(&Fr::one());
        assert!(run(12, &Committed, &publics).verify().is_err());
    }
}

#[test]
fn a_boundary_must_fit_its_register() {
    let wrong = BoundaryDescriptor::flat_i18(
        BoundaryRole::Input,
        "graph-input:x",
        Vec::new(),
        Vec::new(),
        3,
        UNIT as u64,
    )
    .unwrap();
    let refused = AssemblerCircuit::new_with_boundary_commitments(
        dot_program(2),
        Default::default(),
        vec![wrong],
        vec![(0, output_descriptor())],
        vec![],
    );
    let circuit = match refused {
        Err(_) => return,
        Ok(circuit) => circuit,
    };
    let mut meta = ConstraintSystem::new();
    let config = AssemblerCircuit::configure_with_params(&mut meta, circuit.params(), &vec![]);
    assert!(circuit.synthesize(&config, &mut Layouter::new(true)).is_err());
}

// ---- Cells handed on ----

struct ConsumerConfig {
    assembler: AssemblerConfig,
    consumer: Column,
}

struct Consumer {
    value: I18,
}

impl Layout for Consumer {
    type Config = ConsumerConfig;

    fn configure(meta: &mut ConstraintSystem) -> ConsumerConfig {
        let consumer = meta.advice_column();
        meta.enable_equality(consumer);
        ConsumerConfig {
            assembler: AssemblerChip::configure(meta, &dot_program(2).instructions),
            consumer,
        }
    }

    fn synthesize(&self, config: ConsumerConfig, layouter: &mut Layouter) {
        let chip = AssemblerChip::construct(config.assembler);
        chip.load_range_tables(layouter);
        let assigned = chip.assign_with_cells(layouter, &dot_program(2)).unwrap();
        let region = layouter.region();
        let value = i64_to_fr(self.value.raw());
        let consumer = layouter.assign_advice(region, config.consumer, 0, value);
        link(layouter, consumer.cell, assigned.virtuals[0].cells[0].cell);
    }
}

#[test]
fn returned_virtual_cell_rejects_an_inconsistent_consumer_assignment() {
    // The dot product is 1 * 1 + 1 * 1 = 2.
    let circuit = Consumer { value: I18::from_raw(3 * UNIT) };
    assert!(run(10, &circuit, &[]).verify().is_err());
    let circuit = Consumer { value: I18::from_raw(2 * UNIT) };
    run(10, &circuit, &[]).assert_satisfied();
}

// ---- The hash ----

struct PairConfig {
    poseidon: PoseidonBoundaryConfig,
    input: Column,
    instance: Column,
}

struct Pair {
    left: Fr,
    right: Fr,
}

impl Layout for Pair {
    type Config = PairConfig;

    fn configure(meta: &mut ConstraintSystem) -> PairConfig {
        let input = meta.advice_column();
        let instance = meta.instance_column();
        meta.enable_equality(input);
        meta.enable_equality(instance);
        PairConfig { poseidon: PoseidonBoundaryChip::configure(meta), input, instance }
    }

    fn synthesize(&self, config: PairConfig, layouter: &mut Layouter) {
        let region = layouter.region();
        let left = layouter.assign_advice(region, config.input, 0, self.left);
        let right = layouter.assign_advice(region, config.input, 1, self.right);
        let chip = PoseidonBoundaryChip::construct(config.poseidon);
        let output = chip.hash_pair(layouter, &left, &right);
        layouter.constrain_instance(output.cell, config.instance, 0);
    }
}

#[test]
fn circuit_matches_native_and_rejects_changed_public_hash() {
    let circuit = Pair { left: Fr::from_u64(7), right: Fr::from_u64(11) };
    let expected = poseidon_compress_native(circuit.left, circuit.right);
    run(8, &circuit, &[expected]).assert_satisfied();
    assert!(run(8, &circuit, &[expected.plus(&Fr::one())]).verify().is_err());
}
