//! Proofs: the circuits with the KZG commitment scheme.
use halo2_axiom::circuit::{
    Cell as ProverCell, Layouter as ProverLayouter, SimpleFloorPlanner, Value,
};
use halo2_axiom::dev::MockProver;
use halo2_axiom::halo2curves::bn256::{Bn256, Fr as Scalar, G1Affine, G2Affine, G1};
use halo2_axiom::halo2curves::ff::{Field, PrimeField};
use halo2_axiom::halo2curves::group::prime::PrimeCurveAffine;
use halo2_axiom::halo2curves::group::{Curve, Group};
use halo2_axiom::plonk::{
    create_proof, keygen_pk2, verify_proof, Advice, Circuit, Column as ProverColumn,
    ConstraintSystem as ProverSystem, Error, Expression as ProverExpression, Fixed, Instance,
    ProvingKey, Selector as ProverSelector, TableColumn as ProverTable, VirtualCells,
};
use halo2_axiom::poly::commitment::ParamsProver;
use halo2_axiom::poly::kzg::commitment::{KZGCommitmentScheme, ParamsKZG};
use halo2_axiom::poly::kzg::multiopen::{ProverSHPLONK, VerifierSHPLONK};
use halo2_axiom::poly::kzg::strategy::SingleStrategy;
use halo2_axiom::poly::Rotation;
use halo2_axiom::transcript::{
    Blake2bRead, Blake2bWrite, Challenge255, TranscriptReadBuffer, TranscriptWriterBuffer,
};
use rand_core::OsRng;
use zkie_core::assembler::{
    AssemblerChip, AssemblerConfig, AssemblerInstruction, AssemblerProgram, RegisterRef,
    RmsNormParams,
};
use zkie_core::chips::div::{DivChip, DivConfig};
use zkie_core::chips::dot_general::{DotProductChip, DotProductConfig};
use zkie_core::chips::embed_lookup::{EmbedLookupChip, EmbedLookupConfig};
use zkie_core::chips::gelu::{GeluChip, GeluConfig};
use zkie_core::chips::layer_norm::{LayerNormChip, LayerNormConfig};
use zkie_core::chips::lookup::{LookupChip, LookupConfig};
use zkie_core::chips::patch_embed::{PatchEmbedChip, PatchEmbedConfig};
use zkie_core::chips::reduce::{
    ReduceMeanChip, ReduceMeanConfig, ReduceSumChip, ReduceSumConfig,
};
use zkie_core::chips::softmax::{SoftmaxChip, SoftmaxConfig};
use zkie_core::field::Fr;
use zkie_core::field_convert::i64_to_fr;
use zkie_core::fixed_point::I18;
use zkie_core::isa::{EltwiseOp, Instruction};
use zkie_core::layout::{Cell, Layouter, Op};
use zkie_core::plonk::{Column, ColumnKind, ConstraintSystem, Expression, Rule};
use zkie_core::program_circuit::{AssemblerCircuit, AssemblerCircuitConfig};

// ---- Laying the library's circuits out for the prover ----

/// A circuit of the library: its constraints and what it lays out.
trait Layout {
    type Config;

    fn configure(meta: &mut ConstraintSystem) -> Self::Config;

    fn synthesize(&self, config: Self::Config, layouter: &mut Layouter);

    /// A circuit whose layout every other of its kind has. Rules that it never switches on and
    /// columns that it never links are not declared.
    fn sample() -> Option<Self>
    where
        Self: Sized,
    {
        None
    }

    /// Whether the recorded advice values are witnesses.
    fn known(&self) -> bool {
        true
    }
}

#[derive(Clone)]
struct Columns {
    advice: Vec<ProverColumn<Advice>>,
    fixed: Vec<ProverColumn<Fixed>>,
    instance: Vec<ProverColumn<Instance>>,
    tables: Vec<ProverTable>,
    selectors: Vec<ProverSelector>,
}

fn scalar(value: &Fr) -> Scalar {
    Scalar::from_raw(value.limbs())
}

fn polynomial(
    e: &Expression,
    cells: &mut VirtualCells<'_, Scalar>,
    columns: &Columns,
) -> ProverExpression<Scalar> {
    match e {
        Expression::Constant(c) => ProverExpression::Constant(scalar(c)),
        Expression::Query { column, rotation } => match column.kind {
            ColumnKind::Advice => {
                cells.query_advice(columns.advice[column.index], Rotation(*rotation))
            }
            ColumnKind::Fixed => {
                cells.query_fixed(columns.fixed[column.index], Rotation(*rotation))
            }
            ColumnKind::Instance => {
                cells.query_instance(columns.instance[column.index], Rotation(*rotation))
            }
        },
        Expression::Sum(a, b) => polynomial(a, cells, columns) + polynomial(b, cells, columns),
        Expression::Difference(a, b) => {
            polynomial(a, cells, columns) - polynomial(b, cells, columns)
        }
        Expression::Product(a, b) => polynomial(a, cells, columns) * polynomial(b, cells, columns),
    }
}

fn degree(e: &Expression) -> usize {
    match e {
        Expression::Constant(_) => 0,
        Expression::Query { .. } => 1,
        Expression::Sum(a, b) | Expression::Difference(a, b) => degree(a).max(degree(b)),
        Expression::Product(a, b) => degree(a) + degree(b),
    }
}

/// Whether a layout links a column.
fn links(ops: &[Op], column: Column) -> bool {
    ops.iter().any(|op| match op {
        Op::Equal { left, right } => left.column == column || right.column == column,
        Op::Constant { cell, .. } => cell.column == column,
        Op::Instance { cell, column: public, .. } => cell.column == column || *public == column,
        _ => false,
    })
}

/// Whether a layout switches a rule on.
fn enables(ops: &[Op], rule: usize) -> bool {
    ops.iter().any(|op| matches!(op, Op::Enable { selector, .. } if selector.0 == rule))
}

fn declare(
    meta: &mut ProverSystem<Scalar>,
    cs: &ConstraintSystem,
    sample: Option<Vec<Op>>,
) -> Columns {
    let mut columns = Columns {
        advice: (0..cs.advice).map(|_| meta.advice_column()).collect(),
        fixed: (0..cs.fixed).map(|_| meta.fixed_column()).collect(),
        instance: (0..cs.instance).map(|_| meta.instance_column()).collect(),
        tables: (0..cs.tables).map(|_| meta.lookup_table_column()).collect(),
        selectors: Vec::new(),
    };
    for column in &cs.equality {
        if sample.as_ref().is_some_and(|ops| !links(ops, *column)) {
            continue;
        }
        match column.kind {
            ColumnKind::Advice => meta.enable_equality(columns.advice[column.index]),
            ColumnKind::Fixed => meta.enable_equality(columns.fixed[column.index]),
            ColumnKind::Instance => meta.enable_equality(columns.instance[column.index]),
        }
    }
    for column in &cs.constants {
        meta.enable_constant(columns.fixed[column.index]);
    }
    let highest = cs.rules.iter().map(|rule| match rule {
        Rule::Gate(polynomials) => polynomials.iter().map(degree).max().unwrap_or(0) + 1,
        Rule::Lookup(_) => 1,
    });
    meta.set_minimum_degree(highest.max().unwrap_or(1));
    let never = if sample.is_some() { vec![meta.complex_selector()] } else { vec![] };
    for (at, rule) in cs.rules.iter().enumerate() {
        if sample.as_ref().is_some_and(|ops| !enables(ops, at)) {
            columns.selectors.push(never[0]);
            continue;
        }
        match rule {
            Rule::Gate(polynomials) => {
                let selector = meta.selector();
                meta.create_gate("gate", |cells| {
                    let on = cells.query_selector(selector);
                    polynomials
                        .iter()
                        .map(|p| on.clone() * polynomial(p, cells, &columns))
                        .collect::<Vec<_>>()
                });
                columns.selectors.push(selector);
            }
            Rule::Lookup(inputs) => {
                let selector = meta.complex_selector();
                meta.lookup("lookup", |cells| {
                    let on = cells.query_selector(selector);
                    let one = ProverExpression::Constant(Scalar::from_raw([1, 0, 0, 0]));
                    let off = one - on.clone();
                    inputs
                        .iter()
                        .map(|input| {
                            let value = polynomial(&input.expression, cells, &columns);
                            let default = ProverExpression::Constant(scalar(&input.default));
                            let table = columns.tables[input.table.0];
                            (on.clone() * value + off.clone() * default, table)
                        })
                        .collect()
                });
                columns.selectors.push(selector);
            }
        }
    }
    columns
}

/// What a region occupies: a column or a selector, by kind and index.
fn occupied(op: &Op) -> Option<(usize, (u8, usize), usize)> {
    match op {
        Op::Enable { region, selector, offset } => Some((*region, (0, selector.0), *offset)),
        Op::Advice { cell, .. } => Some((cell.region, (1, cell.column.index), cell.offset)),
        Op::Fixed { cell, .. } => Some((cell.region, (2, cell.column.index), cell.offset)),
        _ => None,
    }
}

/// The first row of every region: the first for which its columns are free.
fn place(ops: &[Op]) -> Vec<usize> {
    let mut starts = vec![0usize; ops.len()];
    let mut free: Vec<((u8, usize), usize)> = Vec::new();
    let mut i = 0;
    while i < ops.len() {
        let mut end = i + 1;
        while end < ops.len() && !matches!(ops[end], Op::Region | Op::Table) {
            end += 1;
        }
        let used: Vec<((u8, usize), usize)> = ops[i..end]
            .iter()
            .filter_map(|op| occupied(op).map(|(region, column, offset)| {
                assert_eq!(region, i);
                (column, offset)
            }))
            .collect();
        let rows = used.iter().map(|(_, offset)| offset + 1).max().unwrap_or(0);
        let start = used
            .iter()
            .filter_map(|(column, _)| free.iter().find(|(c, _)| c == column).map(|(_, r)| *r))
            .max()
            .unwrap_or(0);
        for (column, _) in &used {
            match free.iter_mut().find(|(c, _)| c == column) {
                Some(entry) => entry.1 = start + rows,
                None => free.push((*column, start + rows)),
            }
        }
        starts[i] = start;
        i = end;
    }
    starts
}

fn replay(
    log: &Layouter,
    columns: &Columns,
    mut layouter: impl ProverLayouter<Scalar>,
) -> Result<(), Error> {
    let mut tables: Vec<Vec<Op>> = Vec::new();
    for op in &log.ops {
        match op {
            Op::Table => tables.push(Vec::new()),
            Op::TableRow { .. } => tables.last_mut().unwrap().push(*op),
            _ => {}
        }
    }
    for rows in tables {
        layouter.assign_table(
            || "table",
            |mut table| {
                for op in &rows {
                    if let Op::TableRow { table: column, row, value } = op {
                        let v = Value::known(scalar(value));
                        table.assign_cell(|| "row", columns.tables[column.0], *row, || v)?;
                    }
                }
                Ok(())
            },
        )?;
    }
    let starts = place(&log.ops);
    let mut cells: Vec<(Cell, ProverCell)> = Vec::new();
    let find = |cells: &Vec<(Cell, ProverCell)>, c: &Cell| {
        cells[cells.iter().rposition(|(at, _)| at == c).expect("an assigned cell")].1
    };
    let publics = layouter.assign_region(
        || "regions",
        |mut region| {
            let mut publics: Vec<(ProverCell, usize, usize)> = Vec::new();
            for op in &log.ops {
                match op {
                    Op::Enable { region: name, selector, offset } => {
                        let row = starts[*name] + offset;
                        columns.selectors[selector.0].enable(&mut region, row)?;
                    }
                    Op::Advice { cell, value } => {
                        let column = columns.advice[cell.column.index];
                        let v = if log.known {
                            Value::known(scalar(value))
                        } else {
                            Value::unknown()
                        };
                        let row = starts[cell.region] + cell.offset;
                        cells.push((*cell, region.assign_advice(column, row, v).cell()));
                    }
                    Op::Fixed { cell, value } => {
                        let column = columns.fixed[cell.column.index];
                        let row = starts[cell.region] + cell.offset;
                        cells.push((*cell, region.assign_fixed(column, row, scalar(value))));
                    }
                    Op::Equal { left, right } => {
                        region.constrain_equal(find(&cells, left), find(&cells, right));
                    }
                    Op::Constant { cell, value } => {
                        region.constrain_constant(find(&cells, cell), scalar(value))?;
                    }
                    Op::Instance { cell, column, row } => {
                        publics.push((find(&cells, cell), column.index, *row));
                    }
                    _ => {}
                }
            }
            Ok(publics)
        },
    )?;
    for (cell, column, row) in publics {
        layouter.constrain_instance(cell, columns.instance[column], row);
    }
    Ok(())
}

struct Replay<'a, L>(&'a L);

impl<'a, L: Layout> Circuit<Scalar> for Replay<'a, L> {
    type Config = Columns;
    type FloorPlanner = SimpleFloorPlanner;
    type Params = ();

    fn without_witnesses(&self) -> Self {
        Replay(self.0)
    }

    fn configure(meta: &mut ProverSystem<Scalar>) -> Columns {
        let mut cs = ConstraintSystem::new();
        let config = L::configure(&mut cs);
        let sample = L::sample().map(|layout| {
            let mut log = Layouter::new(true);
            layout.synthesize(config, &mut log);
            log.ops
        });
        declare(meta, &cs, sample)
    }

    fn synthesize(
        &self,
        columns: Columns,
        layouter: impl ProverLayouter<Scalar>,
    ) -> Result<(), Error> {
        let mut cs = ConstraintSystem::new();
        let config = L::configure(&mut cs);
        let mut log = Layouter::new(self.0.known());
        self.0.synthesize(config, &mut log);
        replay(&log, &columns, layouter)
    }
}

// ---- Proving and verifying ----

/// Multiples of the first group's generator, from a table of its multiples by one byte at each
/// of the thirty-two positions.
struct Multiples(Vec<Vec<G1>>);

impl Multiples {
    fn new() -> Self {
        let mut base = G1::generator();
        let mut rows = Vec::new();
        for _ in 0..32 {
            let mut row = vec![G1::identity()];
            for d in 1..256usize {
                row.push(row[d - 1] + base);
            }
            base = row[255] + base;
            rows.push(row);
        }
        Multiples(rows)
    }

    fn of(&self, x: &Scalar) -> G1 {
        let bytes = x.to_repr();
        let bytes: &[u8] = bytes.as_ref();
        let picked = bytes.iter().zip(&self.0).map(|(byte, row)| row[*byte as usize]);
        picked.fold(G1::identity(), |sum, point| sum + point)
    }

    fn all(&self, xs: &[Scalar]) -> Vec<G1Affine> {
        let points: Vec<G1> = xs.iter().map(|x| self.of(x)).collect();
        let mut affine = vec![G1Affine::identity(); points.len()];
        G1::batch_normalize(&points, &mut affine);
        affine
    }
}

/// Parameters for circuits of `2^k` rows, from a secret that is thrown away.
fn setup(k: u32) -> ParamsKZG<Bn256> {
    let n = 1usize << k;
    let s = Scalar::random(OsRng);
    let mut root = Scalar::ROOT_OF_UNITY;
    for _ in k..Scalar::S {
        root = root.square();
    }
    let vanishing = s.pow_vartime([n as u64]) - Scalar::ONE;
    let scale = vanishing * Scalar::from(n as u64).invert().unwrap();
    let mut powers = Vec::with_capacity(n);
    let mut lagrange = Vec::with_capacity(n);
    let (mut power, mut point) = (Scalar::ONE, Scalar::ONE);
    for _ in 0..n {
        powers.push(power);
        lagrange.push(scale * point * (s - point).invert().unwrap());
        power *= s;
        point *= root;
    }
    let multiples = Multiples::new();
    let g2 = G2Affine::generator();
    ParamsKZG::<Bn256>::setup(1, OsRng).from_parts(
        k,
        multiples.all(&powers),
        Some(multiples.all(&lagrange)),
        g2,
        (g2 * s).into(),
    )
}

fn keys<L: Layout>(params: &ParamsKZG<Bn256>, layout: &L) -> ProvingKey<G1Affine> {
    let circuit = Replay(layout);
    keygen_pk2(params, &circuit, true).expect("keygen_pk should not fail")
}

fn prove<L: Layout>(
    params: &ParamsKZG<Bn256>,
    pk: &ProvingKey<G1Affine>,
    layout: &L,
    instances: &[&[Scalar]],
) -> Vec<u8> {
    let mut transcript = Blake2bWrite::<_, G1Affine, Challenge255<_>>::init(vec![]);
    create_proof::<KZGCommitmentScheme<Bn256>, ProverSHPLONK<'_, Bn256>, _, _, _, _>(
        params,
        pk,
        &[Replay(layout)],
        &[instances],
        OsRng,
        &mut transcript,
    )
    .expect("proof generation should not fail");
    transcript.finalize()
}

fn verifies(
    params: &ParamsKZG<Bn256>,
    pk: &ProvingKey<G1Affine>,
    proof: &[u8],
    instances: &[&[Scalar]],
) -> bool {
    let mut transcript = Blake2bRead::<_, G1Affine, Challenge255<_>>::init(proof);
    let verifier_params = params.verifier_params();
    let strategy = SingleStrategy::new(verifier_params);
    verify_proof::<KZGCommitmentScheme<Bn256>, VerifierSHPLONK<'_, Bn256>, _, _, _>(
        verifier_params,
        pk.get_vk(),
        strategy,
        &[instances],
        &mut transcript,
    )
    .is_ok()
}

/// A circuit without public values is satisfied, and its proof verifies.
fn roundtrip<L: Layout>(k: u32, layout: &L) {
    MockProver::run(k, &Replay(layout), vec![]).unwrap().assert_satisfied();
    let params = setup(k);
    let pk = keys(&params, layout);
    let proof = prove(&params, &pk, layout, &[]);
    assert!(verifies(&params, &pk, &proof, &[]), "the proof failed to verify");
}

/// A proof with a changed byte does not verify.
fn tampered<L: Layout>(k: u32, layout: &L) {
    let params = setup(k);
    let pk = keys(&params, layout);
    let mut proof = prove(&params, &pk, layout, &[]);
    let mid = proof.len() / 2;
    proof[mid] ^= 0xFF;
    assert!(!verifies(&params, &pk, &proof, &[]), "a tampered proof should fail verification");
}

// ---- Numbers ----

const ONE: f64 = 1_000_000_000_000_000_000.0;

fn i18(v: f64) -> I18 {
    let scaled = (v * ONE).round();
    assert!(scaled.is_finite() && scaled >= i64::MIN as f64 && scaled <= i64::MAX as f64);
    I18::from_raw(scaled as i64)
}

fn vector(vs: &[f64]) -> Vec<I18> {
    vs.iter().map(|v| i18(*v)).collect()
}

/// A grid of `n` points with the function's values, in fixed point.
fn build_domain(f: impl Fn(f64) -> f64, min: f64, max: f64, n: usize) -> (Vec<I18>, Vec<I18>) {
    let points: Vec<f64> = (0..n)
        .map(|i| min + (i as f64 / (n - 1) as f64) * (max - min))
        .collect();
    let values: Vec<f64> = points.iter().map(|x| f(*x)).collect();
    (vector(&points), vector(&values))
}

fn columns(meta: &mut ConstraintSystem, n: usize) -> Vec<Column> {
    (0..n).map(|_| meta.advice_column()).collect()
}

// ---- Division ----

struct DivCircuit;

impl Layout for DivCircuit {
    type Config = DivConfig;

    fn configure(meta: &mut ConstraintSystem) -> DivConfig {
        let c = columns(meta, 7);
        DivChip::configure(meta, c[0], c[1], c[2], c[3], c[4], c[5], c[6])
    }

    fn synthesize(&self, config: DivConfig, layouter: &mut Layouter) {
        DivChip::construct(config).assign(layouter, i18(5.0), i18(2.0)).unwrap();
    }
}

#[test]
fn div_real_kzg_roundtrip() {
    roundtrip(11, &DivCircuit);
}

#[test]
fn div_tampered_proof_fails_verification() {
    tampered(11, &DivCircuit);
}

// ---- Dot products ----

struct DotCircuit;

impl Layout for DotCircuit {
    type Config = DotProductConfig;

    fn configure(meta: &mut ConstraintSystem) -> DotProductConfig {
        let c = columns(meta, 7);
        DotProductChip::configure(meta, c[0], c[1], c[2], c[3], c[4], c[5], c[6], 3)
    }

    fn synthesize(&self, config: DotProductConfig, layouter: &mut Layouter) {
        let chip = DotProductChip::construct(config);
        chip.load_range_table(layouter);
        chip.assign(layouter, vector(&[2.0, -3.0, 1.5]), vector(&[3.0, 2.0, -4.0])).unwrap();
    }
}

#[test]
fn dot_general_real_kzg_roundtrip() {
    roundtrip(10, &DotCircuit);
}

#[test]
fn dot_general_tampered_proof_fails_verification() {
    tampered(10, &DotCircuit);
}

// ---- Sums and means ----

fn summands() -> Vec<I18> {
    vector(&[2.0, -1.5, 3.25, -0.75])
}

struct SumCircuit;

impl Layout for SumCircuit {
    type Config = ReduceSumConfig;

    fn configure(meta: &mut ConstraintSystem) -> ReduceSumConfig {
        let c = columns(meta, 4);
        ReduceSumChip::configure(meta, c[0], c[1], c[2], c[3], 4)
    }

    fn synthesize(&self, config: ReduceSumConfig, layouter: &mut Layouter) {
        ReduceSumChip::construct(config).assign(layouter, &summands());
    }
}

#[test]
fn reduce_sum_real_kzg_roundtrip() {
    roundtrip(9, &SumCircuit);
}

#[test]
fn reduce_sum_tampered_proof_fails_verification() {
    tampered(9, &SumCircuit);
}

struct MeanCircuit;

impl Layout for MeanCircuit {
    type Config = ReduceMeanConfig;

    fn configure(meta: &mut ConstraintSystem) -> ReduceMeanConfig {
        let c = columns(meta, 7);
        ReduceMeanChip::configure(meta, c[0], c[1], c[2], c[3], c[4], c[5], c[6], 4, i18(0.25))
    }

    fn synthesize(&self, config: ReduceMeanConfig, layouter: &mut Layouter) {
        ReduceMeanChip::construct(config).assign(layouter, &summands());
    }
}

#[test]
fn reduce_mean_real_kzg_roundtrip() {
    roundtrip(9, &MeanCircuit);
}

#[test]
fn reduce_mean_tampered_proof_fails_verification() {
    tampered(9, &MeanCircuit);
}

// ---- Lookups ----

struct LookupCircuit;

impl Layout for LookupCircuit {
    type Config = LookupConfig;

    fn configure(meta: &mut ConstraintSystem) -> LookupConfig {
        let c = columns(meta, 2);
        LookupChip::configure(meta, c[0], c[1])
    }

    fn synthesize(&self, config: LookupConfig, layouter: &mut Layouter) {
        let (domain, values) = build_domain(|x| x * x, 0.0, 2.0, 16);
        let input = domain[5];
        let chip = LookupChip::construct(config, domain, values);
        chip.load_table(layouter);
        chip.assign(layouter, input).unwrap();
    }
}

#[test]
fn lookup_real_kzg_roundtrip() {
    roundtrip(8, &LookupCircuit);
}

#[test]
fn lookup_tampered_proof_fails_verification() {
    tampered(8, &LookupCircuit);
}

struct EmbedCircuit;

fn sample_table() -> Vec<Vec<I18>> {
    (0..4)
        .map(|i| (0..3).map(|j| i18(((i * 3 + j) as f64 + 1.0) * 0.01)).collect())
        .collect()
}

impl Layout for EmbedCircuit {
    type Config = EmbedLookupConfig;

    fn configure(meta: &mut ConstraintSystem) -> EmbedLookupConfig {
        let index = meta.advice_column();
        let outputs = columns(meta, 3);
        EmbedLookupChip::configure(meta, index, &outputs, 4, 3)
    }

    fn synthesize(&self, config: EmbedLookupConfig, layouter: &mut Layouter) {
        let chip = EmbedLookupChip::construct(config);
        chip.load_table(layouter, &sample_table()).unwrap();
        chip.assign(layouter, 2, &sample_table()).unwrap();
    }
}

#[test]
fn embed_lookup_real_kzg_roundtrip() {
    roundtrip(8, &EmbedCircuit);
}

#[test]
fn embed_lookup_tampered_proof_fails_verification() {
    tampered(8, &EmbedCircuit);
}

fn erf(x: f64) -> f64 {
    let sign = if x < 0.0 { -1.0 } else { 1.0 };
    let t = 1.0 / (1.0 + 0.3275911 * x.abs());
    let a = [0.254829592, -0.284496736, 1.421413741, -1.453152027, 1.061405429];
    let poly = t * (a[0] + t * (a[1] + t * (a[2] + t * (a[3] + t * a[4]))));
    sign * (1.0 - poly * (-x * x).exp())
}

fn gelu(x: f64) -> f64 {
    0.5 * x * (1.0 + erf(x / std::f64::consts::SQRT_2))
}

struct GeluCircuit;

impl Layout for GeluCircuit {
    type Config = GeluConfig;

    fn configure(meta: &mut ConstraintSystem) -> GeluConfig {
        let c = columns(meta, 2);
        GeluChip::configure(meta, c[0], c[1])
    }

    fn synthesize(&self, config: GeluConfig, layouter: &mut Layouter) {
        let (domain, values) = build_domain(gelu, -6.0, 6.0, 33);
        let input = domain[20];
        let chip = GeluChip::construct(config, domain, values);
        chip.load_table(layouter);
        chip.assign(layouter, input).unwrap();
    }
}

#[test]
fn gelu_real_kzg_roundtrip() {
    roundtrip(7, &GeluCircuit);
}

#[test]
fn gelu_tampered_proof_fails_verification() {
    tampered(7, &GeluCircuit);
}

// ---- Patch embedding ----

struct PatchCircuit;

impl Layout for PatchCircuit {
    type Config = PatchEmbedConfig;

    fn configure(meta: &mut ConstraintSystem) -> PatchEmbedConfig {
        let c = columns(meta, 7);
        PatchEmbedChip::configure(meta, c[0], c[1], c[2], c[3], c[4], c[5], c[6], 3, 2)
    }

    fn synthesize(&self, config: PatchEmbedConfig, layouter: &mut Layouter) {
        let weights = vec![vector(&[1.0, 0.0, 0.0]), vector(&[0.5, 0.5, 1.0])];
        PatchEmbedChip::construct(config)
            .assign(layouter, &vector(&[1.0, 2.0, -1.5]), &weights)
            .unwrap();
    }
}

#[test]
fn patch_embed_real_kzg_roundtrip() {
    roundtrip(11, &PatchCircuit);
}

#[test]
fn patch_embed_tampered_proof_fails_verification() {
    tampered(11, &PatchCircuit);
}

// ---- Layer normalization ----

struct LayerNormCircuit;

impl Layout for LayerNormCircuit {
    type Config = LayerNormConfig;

    fn configure(meta: &mut ConstraintSystem) -> LayerNormConfig {
        let c = columns(meta, 21);
        LayerNormChip::configure(
            meta, c[0], c[1], c[2], c[3], c[4], c[5], c[6], c[7], c[8], c[9], c[10], c[11], c[12],
            c[13], c[14], c[15], c[16], c[17], c[18], c[19], c[20], 4, i18(0.25), i18(0.01),
        )
    }

    fn synthesize(&self, config: LayerNormConfig, layouter: &mut Layouter) {
        let (domain, values) = build_domain(|x| 1.0 / x.sqrt(), 0.1, 3.0, 101);
        let chip = LayerNormChip::construct(config, domain, values);
        chip.load_table(layouter);
        chip.assign(layouter, &vector(&[-1.5, -0.5, 0.5, 1.5])).unwrap();
    }

    fn sample() -> Option<Self> {
        Some(LayerNormCircuit)
    }
}

#[test]
fn layer_norm_real_kzg_roundtrip() {
    roundtrip(12, &LayerNormCircuit);
}

#[test]
fn layer_norm_tampered_proof_fails_verification() {
    tampered(12, &LayerNormCircuit);
}

// ---- Softmax ----

struct SoftmaxCircuit;

impl Layout for SoftmaxCircuit {
    type Config = SoftmaxConfig;

    fn configure(meta: &mut ConstraintSystem) -> SoftmaxConfig {
        let c = columns(meta, 12);
        SoftmaxChip::configure(
            meta, c[0], c[1], c[2], c[3], c[4], c[5], c[6], c[7], c[8], c[9], c[10], c[11], 4,
        )
    }

    fn synthesize(&self, config: SoftmaxConfig, layouter: &mut Layouter) {
        let (domain, values) = build_domain(f64::exp, -4.0, 0.0, 33);
        let inputs: Vec<I18> = [0usize, 12, 20, 32].iter().map(|i| domain[*i]).collect();
        let chip = SoftmaxChip::construct(config, domain, values);
        chip.load_table(layouter);
        chip.assign(layouter, &inputs).unwrap();
    }
}

#[test]
fn softmax_real_kzg_roundtrip() {
    roundtrip(11, &SoftmaxCircuit);
}

#[test]
fn softmax_tampered_proof_fails_verification() {
    tampered(11, &SoftmaxCircuit);
}

// ---- Programs ----

fn linear_layer_program() -> AssemblerProgram {
    AssemblerProgram {
        instructions: vec![
            AssemblerInstruction {
                instruction: Instruction::DotGeneral {
                    m: 2,
                    n: 2,
                    k: 2,
                    batch_dims: vec![],
                    trans_a: false,
                    trans_b: false,
                },
                inputs: vec![RegisterRef::Input(0), RegisterRef::Weight(0)],
            },
            AssemblerInstruction {
                instruction: Instruction::Eltwise { op: EltwiseOp::Add },
                inputs: vec![RegisterRef::Virtual(0), RegisterRef::Weight(1)],
            },
        ],
        input_values: vec![vector(&[0.5, -0.25, 0.25, 0.5])],
        weight_values: vec![vector(&[1.0, 0.5, -0.5, 1.0]), vector(&[0.1, -0.2])],
    }
}

struct LinearLayerCircuit;

impl Layout for LinearLayerCircuit {
    type Config = AssemblerConfig;

    fn configure(meta: &mut ConstraintSystem) -> AssemblerConfig {
        AssemblerChip::configure(meta, &linear_layer_program().instructions)
    }

    fn synthesize(&self, config: AssemblerConfig, layouter: &mut Layouter) {
        AssemblerChip::construct(config).assign(layouter, &linear_layer_program()).unwrap();
    }
}

#[test]
fn linear_layer_real_kzg_roundtrip() {
    roundtrip(11, &LinearLayerCircuit);
}

#[test]
fn linear_layer_tampered_proof_fails_verification() {
    tampered(11, &LinearLayerCircuit);
}

struct LinearLayerProgram {
    circuit: AssemblerCircuit,
}

impl Layout for LinearLayerProgram {
    type Config = AssemblerCircuitConfig;

    fn configure(meta: &mut ConstraintSystem) -> AssemblerCircuitConfig {
        let circuit = AssemblerCircuit::new(linear_layer_program(), Default::default());
        AssemblerCircuit::configure_with_params(meta, circuit.params(), &vec![])
    }

    fn synthesize(&self, config: AssemblerCircuitConfig, layouter: &mut Layouter) {
        self.circuit.synthesize(&config, layouter).unwrap();
    }

    fn known(&self) -> bool {
        self.circuit.has_known_witnesses()
    }
}

/// The inputs, the weights and the outputs.
fn linear_layer_publics() -> Vec<Scalar> {
    let program = linear_layer_program();
    program
        .input_values
        .iter()
        .chain(&program.weight_values)
        .flatten()
        .copied()
        .chain([i18(0.725), i18(-0.2), i18(0.1), i18(0.425)])
        .map(|value| scalar(&i64_to_fr(value.raw())))
        .collect()
}

#[test]
fn runtime_assembler_keys_from_unknown_witnesses_prove_the_witnessed_layout() {
    let circuit = AssemblerCircuit::new(linear_layer_program(), Default::default());
    let blank = LinearLayerProgram { circuit: circuit.without_witnesses() };
    let witnessed = LinearLayerProgram { circuit };
    let params = setup(11);
    let pk = keys(&params, &blank);
    let mut publics = linear_layer_publics();
    let proof = prove(&params, &pk, &witnessed, &[&publics]);
    assert!(verifies(&params, &pk, &proof, &[&publics]));
    publics[10] = scalar(&i64_to_fr(i18(0.726).raw()));
    assert!(!verifies(&params, &pk, &proof, &[&publics]));
}

// ---- Root-mean-square normalization ----

fn rms_norm_program() -> AssemblerProgram {
    AssemblerProgram {
        instructions: vec![AssemblerInstruction {
            instruction: Instruction::RmsNorm { dim: 4, epsilon_milli: 10 },
            inputs: vec![RegisterRef::Input(0), RegisterRef::Weight(0)],
        }],
        input_values: vec![vector(&[-1.5, -0.5, 0.5, 1.5])],
        weight_values: vec![vector(&[1.0, 2.0, 0.5, -1.0])],
    }
}

struct RmsNormCircuit;

impl Layout for RmsNormCircuit {
    type Config = AssemblerConfig;

    fn configure(meta: &mut ConstraintSystem) -> AssemblerConfig {
        let (points, values) = build_domain(|x| 1.0 / x.sqrt(), 0.1, 3.0, 101);
        let params = RmsNormParams {
            dim: 4,
            epsilon_milli: 10,
            reciprocal: i18(0.25),
            epsilon: i18(0.01),
            points,
            values,
        };
        AssemblerChip::configure_with_rms_norm_domains(
            meta,
            &rms_norm_program().instructions,
            &vec![params],
        )
    }

    fn synthesize(&self, config: AssemblerConfig, layouter: &mut Layouter) {
        let chip = AssemblerChip::construct(config);
        chip.load_rms_norm_tables(layouter);
        chip.assign(layouter, &rms_norm_program()).unwrap();
    }

    fn sample() -> Option<Self> {
        Some(RmsNormCircuit)
    }
}

#[test]
fn rms_norm_real_kzg_roundtrip() {
    roundtrip(12, &RmsNormCircuit);
}

#[test]
fn rms_norm_tampered_proof_fails_verification() {
    tampered(12, &RmsNormCircuit);
}
