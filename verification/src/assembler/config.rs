//! The assembler's configuration: a dot product for every length and a normalization for every
//! dimension and epsilon that a program needs, one addition, one multiplication, the column of
//! inputs and weights, and the bridge between shifted and unshifted cells.
use vstd::prelude::*;

use crate::assembler::semantics::AssemblerInstruction;
use crate::chips::bridge::{configure_bridge, BridgeConfig};
use crate::chips::dot_general::{DotProductChip, DotProductConfig};
use crate::chips::eltwise::{EltwiseAddChip, EltwiseAddConfig, EltwiseMulChip, EltwiseMulConfig};
use crate::chips::patch_embed::copied;
use crate::chips::rms_norm::RmsNormChip;
use crate::fixed_point::I18;
use crate::isa::Instruction;
use crate::plonk::{group_extends, Column, ColumnKind, ConstraintSystem, Setup};

verus! {

/// What a normalization is configured with: its dimension, its epsilon in thousandths, the
/// fixed-point numbers for one over the dimension and for epsilon, and the reciprocal square
/// roots `values[i]` at `points[i]`.
pub struct RmsNormParams {
    pub dim: usize,
    pub epsilon_milli: u64,
    pub reciprocal: I18,
    pub epsilon: I18,
    pub points: Vec<I18>,
    pub values: Vec<I18>,
}

/// The configured normalization for a dimension and an epsilon.
pub struct RmsNormEntry {
    pub dim: usize,
    pub epsilon_milli: u64,
    pub chip: RmsNormChip,
}

pub struct AssemblerConfig {
    /// The dot products, by increasing length.
    pub dot: Vec<DotProductConfig>,
    pub add: EltwiseAddConfig,
    pub mul: EltwiseMulConfig,
    /// The normalizations, by increasing dimension and epsilon.
    pub rms_norm: Vec<RmsNormEntry>,
    /// Holds the values of inputs and weights.
    pub boundary: Column,
    pub bridge: BridgeConfig,
    /// The column of public values, where the circuit has any.
    pub public_instance: Option<Column>,
    /// The first lookup table of the configuration.
    pub first_table: usize,
}

impl RmsNormEntry {
    pub open spec fn wf(self) -> bool {
        self.chip.wf() && self.chip.config.k == self.dim
    }

    /// The entry's lookup tables are loaded.
    pub open spec fn loaded(self, setup: Setup) -> bool {
        self.chip.config.loaded(setup, self.chip.domain())
    }

    /// The entry is configured with the parameters.
    pub open spec fn has(self, p: RmsNormParams) -> bool {
        &&& self.dim == p.dim && self.epsilon_milli == p.epsilon_milli
        &&& self.chip.config.epsilon == p.epsilon
        &&& self.chip.config.reduce_mean.reciprocal == p.reciprocal
        &&& self.chip.domain().len() == p.points@.len()
        &&& forall|i: int|
            0 <= i < p.points@.len() ==> #[trigger] self.chip.domain()[i] == (
                p.points@[i],
                p.values@[i],
            )
    }

    /// The entry has the advice columns from `first` on, and a column of bits.
    pub open spec fn columns_from(self, bits: Column, first: int) -> bool {
        let c = self.chip.config;
        &&& c.reduce_mean.sum.values == advice(first)
        &&& c.reduce_mean.sum.sum == advice(first + 1)
        &&& c.reduce_mean.sum.sum_shift == advice(first + 2)
        &&& c.reduce_mean.q == advice(first + 3)
        &&& c.reduce_mean.r == advice(first + 4)
        &&& c.reduce_mean.slack == advice(first + 5)
        &&& c.add.a == advice(first + 6)
        &&& c.add.b == advice(first + 7)
        &&& c.add.c == advice(first + 8)
        &&& c.mul.a == advice(first + 9)
        &&& c.mul.b == advice(first + 10)
        &&& c.mul.q == advice(first + 11)
        &&& c.mul.r == advice(first + 12)
        &&& c.mul.slack == advice(first + 13)
        &&& c.rsqrt.lookup.input == advice(first + 14)
        &&& c.rsqrt.lookup.output == advice(first + 15)
        &&& c.x_anchor == advice(first + 16)
        &&& c.weight_anchor == advice(first + 17)
        &&& c.unshift.shifted == advice(first + 18)
        &&& c.unshift.unshifted == advice(first + 19)
        &&& c.mul.a_shift == advice(first + 20)
        &&& c.mul.b_shift == advice(first + 21)
        &&& c.offset.column == advice(first + 7)
        &&& c.reduce_mean.sum.range_sum.bits == bits
        &&& c.add.range_a.bits == bits
        &&& c.mul.range_a.limbs == bits
    }

    /// The entry's lookup tables are the four from `t` on.
    pub open spec fn tables_from(self, t: int) -> bool {
        &&& self.chip.config.mul.range_a.table.0 == t
        &&& self.chip.config.mul.range_b.table.0 == t + 1
        &&& self.chip.config.rsqrt.lookup.table_input.0 == t + 2
        &&& self.chip.config.rsqrt.lookup.table_output.0 == t + 3
    }
}

/// The advice column of an index.
pub open spec fn advice(index: int) -> Column {
    Column { kind: ColumnKind::Advice, index: index as usize }
}

/// The dot product has the eight advice columns from `first` on, and a column of bits.
pub open spec fn dot_columns_from(c: DotProductConfig, bits: Column, first: int) -> bool {
    &&& c.a == advice(first)
    &&& c.b == advice(first + 1)
    &&& c.accumulator == advice(first + 2)
    &&& c.q == advice(first + 3)
    &&& c.r == advice(first + 4)
    &&& c.slack == advice(first + 5)
    &&& c.a_shift == advice(first + 6)
    &&& c.b_shift == advice(first + 7)
    &&& c.range_a.limbs == bits
}

/// The dot product's lookup tables are the two from `t` on.
pub open spec fn dot_tables_from(c: DotProductConfig, t: int) -> bool {
    c.range_a.table.0 == t && c.range_b.table.0 == t + 1
}

impl AssemblerConfig {
    pub open spec fn wf(self) -> bool {
        &&& forall|i: int| 0 <= i < self.dot@.len() ==> (#[trigger] self.dot@[i]).wf()
        &&& forall|i: int| 0 <= i < self.rms_norm@.len() ==> (#[trigger] self.rms_norm@[i]).wf()
        &&& sorted_keys(self.dot_keys())
        &&& sorted_keys(self.rms_norm_keys())
        &&& self.add.wf()
        &&& self.mul.wf()
        &&& forall|i: int|
            0 <= i < self.dot@.len() ==> dot_tables_from(
                #[trigger] self.dot@[i],
                self.first_table + 2 * i,
            )
        &&& self.mul.range_a.table.0 == self.first_table + 2 * self.dot@.len()
        &&& self.mul.range_b.table.0 == self.first_table + 2 * self.dot@.len() + 1
        &&& forall|i: int|
            0 <= i < self.rms_norm@.len() ==> (#[trigger] self.rms_norm@[i]).tables_from(
                self.first_rms_norm_table() + 4 * i,
            )
    }

    /// The advice columns from `first` on: one of bits, those of the dot products, of the
    /// addition, of the multiplication, and of the normalizations.
    pub open spec fn columns_from(self, first: int) -> bool {
        let bits = advice(first);
        let sum = first + 1 + 8 * self.dot@.len();
        let product = sum + 3;
        let norms = product + 7;
        &&& forall|i: int|
            0 <= i < self.dot@.len() ==> dot_columns_from(
                #[trigger] self.dot@[i],
                bits,
                first + 1 + 8 * i,
            )
        &&& self.add.a == advice(sum)
        &&& self.add.b == advice(sum + 1)
        &&& self.add.c == advice(sum + 2)
        &&& self.add.range_a.bits == bits
        &&& self.mul.a == advice(product)
        &&& self.mul.b == advice(product + 1)
        &&& self.mul.q == advice(product + 2)
        &&& self.mul.r == advice(product + 3)
        &&& self.mul.slack == advice(product + 4)
        &&& self.mul.a_shift == advice(product + 5)
        &&& self.mul.b_shift == advice(product + 6)
        &&& self.mul.range_a.limbs == bits
        &&& forall|i: int|
            0 <= i < self.rms_norm@.len() ==> (#[trigger] self.rms_norm@[i]).columns_from(
                bits,
                norms + 22 * i,
            )
    }

    pub open spec fn dot_keys(self) -> Seq<(usize, u64)> {
        Seq::new(self.dot@.len(), |i: int| (self.dot@[i].k, 0u64))
    }

    pub open spec fn rms_norm_keys(self) -> Seq<(usize, u64)> {
        Seq::new(
            self.rms_norm@.len(),
            |i: int| (self.rms_norm@[i].dim, self.rms_norm@[i].epsilon_milli),
        )
    }

    /// The first table after those of the dot products and of the multiplication.
    pub open spec fn first_rms_norm_table(self) -> int {
        self.first_table + 2 * self.dot@.len() + 2
    }

    /// The first table after those of the configuration.
    pub open spec fn end_table(self) -> int {
        self.first_rms_norm_table() + 4 * self.rms_norm@.len()
    }

    pub open spec fn distinct(self) -> bool {
        &&& forall|i: int| 0 <= i < self.dot@.len() ==> (#[trigger] self.dot@[i]).distinct()
        &&& forall|i: int|
            0 <= i < self.rms_norm@.len() ==> (
            #[trigger] self.rms_norm@[i]).chip.config.distinct()
        &&& self.add.distinct()
        &&& self.mul.distinct()
        &&& self.bridge.distinct()
    }

    pub open spec fn rules(self, setup: Setup) -> bool {
        &&& forall|i: int| 0 <= i < self.dot@.len() ==> (#[trigger] self.dot@[i]).rules(setup)
        &&& forall|i: int|
            0 <= i < self.rms_norm@.len() ==> (#[trigger] self.rms_norm@[i]).chip.config.rules(
                setup,
            )
        &&& self.add.ok(setup)
        &&& self.mul.rules(setup)
        &&& self.bridge.ok(setup)
        &&& setup.cs.linked(self.boundary)
        &&& self.public_instance matches Some(c) ==> setup.cs.linked(c)
    }

    /// Every lookup table of the configuration is loaded.
    pub open spec fn loaded(self, setup: Setup) -> bool {
        &&& forall|i: int| 0 <= i < self.dot@.len() ==> (#[trigger] self.dot@[i]).loaded(setup)
        &&& forall|i: int|
            0 <= i < self.rms_norm@.len() ==> #[trigger] self.rms_norm_loaded(setup, i)
        &&& self.mul.loaded(setup)
    }

    /// The lookup tables of a normalization are loaded.
    pub open spec fn rms_norm_loaded(self, setup: Setup, i: int) -> bool {
        self.rms_norm@[i].loaded(setup)
    }

    pub open spec fn ok(self, setup: Setup) -> bool {
        self.rules(setup) && self.loaded(setup)
    }

    /// Rows that a lookup of the configuration is off at satisfy it.
    pub open spec fn rests(self, setup: Setup) -> bool {
        &&& forall|i: int| 0 <= i < self.dot@.len() ==> (#[trigger] self.dot@[i]).rests(setup)
        &&& forall|i: int|
            0 <= i < self.rms_norm@.len() ==> (#[trigger] self.rms_norm@[i]).chip.config.rests(
                setup,
            )
        &&& self.mul.rests(setup)
    }

    pub proof fn lemma_rests(self, setup: Setup)
        requires
            self.ok(setup),
        ensures
            self.rests(setup),
    {
        assert forall|i: int| 0 <= i < self.dot@.len() implies (#[trigger] self.dot@[i]).rests(
            setup,
        ) by {
            self.dot@[i].lemma_rests(setup);
        }
        assert forall|i: int| 0 <= i < self.rms_norm@.len() implies (
        #[trigger] self.rms_norm@[i]).chip.config.rests(setup) by {
            assert(self.rms_norm_loaded(setup, i));
            let chip = self.rms_norm@[i].chip;
            chip.config.lemma_rests(setup, chip.domain());
        }
        self.mul.lemma_rests(setup);
    }
}

/// The lookup tables of every dot product are loaded.
pub open spec fn dots_loaded(dots: Seq<DotProductConfig>, setup: Setup) -> bool {
    forall|i: int| 0 <= i < dots.len() ==> (#[trigger] dots[i]).loaded(setup)
}

/// The lookup tables of every normalization are loaded.
pub open spec fn entries_loaded(entries: Seq<RmsNormEntry>, setup: Setup) -> bool {
    forall|i: int| 0 <= i < entries.len() ==> (#[trigger] entries[i]).loaded(setup)
}

/// The dimensions and epsilons of parameters.
pub open spec fn param_keys(params: Seq<RmsNormParams>) -> Seq<(usize, u64)> {
    Seq::new(params.len(), |i: int| (params[i].dim, params[i].epsilon_milli))
}

/// The order of keys: by the first component, then by the second.
pub open spec fn key_below(a: (usize, u64), b: (usize, u64)) -> bool {
    a.0 < b.0 || (a.0 == b.0 && a.1 < b.1)
}

pub open spec fn sorted_keys(keys: Seq<(usize, u64)>) -> bool {
    forall|i: int, j: int| 0 <= i < j < keys.len() ==> key_below(keys[i], keys[j])
}

/// The length of the dot products that an instruction needs, as a key.
pub open spec fn dot_key(i: AssemblerInstruction) -> Option<(usize, u64)> {
    match i.instruction {
        Instruction::DotGeneral { m, n, k, batch_dims, trans_a, trans_b } => Some((k, 0)),
        _ => None,
    }
}

/// The dimension and the epsilon of the normalization that an instruction needs.
pub open spec fn rms_norm_key(i: AssemblerInstruction) -> Option<(usize, u64)> {
    match i.instruction {
        Instruction::RmsNorm { dim, epsilon_milli } => Some((dim, epsilon_milli)),
        _ => None,
    }
}

/// Some instruction has the key.
pub open spec fn needed(
    key: spec_fn(AssemblerInstruction) -> Option<(usize, u64)>,
    instructions: Seq<AssemblerInstruction>,
    k: (usize, u64),
) -> bool {
    exists|i: int| 0 <= i < instructions.len() && #[trigger] key(instructions[i]) == Some(k)
}

/// The keys of instructions, each once and in order.
pub open spec fn keys_of(
    key: spec_fn(AssemblerInstruction) -> Option<(usize, u64)>,
    instructions: Seq<AssemblerInstruction>,
    keys: Seq<(usize, u64)>,
) -> bool {
    &&& sorted_keys(keys)
    &&& forall|k: (usize, u64)| #[trigger] keys.contains(k) <==> needed(key, instructions, k)
}

/// Puts a key where it belongs, unless it is there.
fn insert_key(keys: &mut Vec<(usize, u64)>, key: (usize, u64))
    requires
        sorted_keys(old(keys)@),
    ensures
        sorted_keys(final(keys)@),
        final(keys)@.contains(key),
        forall|k: (usize, u64)| old(keys)@.contains(k) ==> #[trigger] final(keys)@.contains(k),
        forall|j: int|
            0 <= j < final(keys)@.len() ==> old(keys)@.contains(#[trigger] final(keys)@[j]) || final(keys)@[j] == key,
        final(keys)@.len() <= old(keys)@.len() + 1,
{
    let ghost before = keys@;
    let mut i: usize = 0;
    while i < keys.len() && (keys[i].0 < key.0 || (keys[i].0 == key.0 && keys[i].1 < key.1))
        invariant
            i <= keys@.len(),
            keys@ == before,
            forall|j: int| 0 <= j < i ==> key_below(#[trigger] keys@[j], key),
        decreases keys@.len() - i,
    {
        i += 1;
    }
    if i < keys.len() && keys[i].0 == key.0 && keys[i].1 == key.1 {
        assert(keys@[i as int] == key);
        return ;
    }
    keys.insert(i, key);
    proof {
        assert(keys@[i as int] == key);
        assert forall|a: int, b: int| 0 <= a < b < keys@.len() implies key_below(
            keys@[a],
            keys@[b],
        ) by {
            if a < i {
                assert(before[a] == keys@[a]);
                assert(key_below(before[a], key));
            }
            if b > i {
                assert(before[b - 1] == keys@[b]);
                assert(i < before.len());
                if i < b - 1 {
                    assert(key_below(before[i as int], before[b - 1]));
                }
                assert(key_below(key, before[i as int]));
                if a > i {
                    assert(before[a - 1] == keys@[a]);
                }
            }
        }
        assert forall|k: (usize, u64)| before.contains(k) implies #[trigger] keys@.contains(k) by {
            let j = choose|j: int| 0 <= j < before.len() && before[j] == k;
            if j < i {
                assert(keys@[j] == k);
            } else {
                assert(keys@[j + 1] == k);
            }
        }
        assert forall|j: int| 0 <= j < keys@.len() implies before.contains(#[trigger] keys@[j])
            || keys@[j] == key by {
            if j < i {
                assert(before[j] == keys@[j]);
            } else if j > i {
                assert(before[j - 1] == keys@[j]);
            }
        }
    }
}

/// The lengths of the dot products that instructions need, each once and in order.
pub fn dot_keys(instructions: &Vec<AssemblerInstruction>) -> (keys: Vec<(usize, u64)>)
    ensures
        keys_of(|i: AssemblerInstruction| dot_key(i), instructions@, keys@),
        keys@.len() <= instructions@.len(),
{
    let ghost key = |i: AssemblerInstruction| dot_key(i);
    let mut keys: Vec<(usize, u64)> = Vec::new();
    let mut i: usize = 0;
    while i < instructions.len()
        invariant
            i <= instructions@.len(),
            key == (|i: AssemblerInstruction| dot_key(i)),
            keys_of(key, instructions@.take(i as int), keys@),
            keys@.len() <= i,
        decreases instructions@.len() - i,
    {
        let ghost before = keys@;
        if let Instruction::DotGeneral { m, n, k, batch_dims, trans_a, trans_b } =
            &instructions[i].instruction {
            insert_key(&mut keys, (*k, 0));
        }
        proof {
            lemma_keys_step(key, instructions@, i as int, before, keys@);
        }
        i += 1;
    }
    assert(instructions@.take(i as int) =~= instructions@);
    keys
}

/// The dimensions and epsilons of the normalizations that instructions need, each once and in
/// order.
pub fn rms_norm_keys(instructions: &Vec<AssemblerInstruction>) -> (keys: Vec<(usize, u64)>)
    ensures
        keys_of(|i: AssemblerInstruction| rms_norm_key(i), instructions@, keys@),
        keys@.len() <= instructions@.len(),
{
    let ghost key = |i: AssemblerInstruction| rms_norm_key(i);
    let mut keys: Vec<(usize, u64)> = Vec::new();
    let mut i: usize = 0;
    while i < instructions.len()
        invariant
            i <= instructions@.len(),
            key == (|i: AssemblerInstruction| rms_norm_key(i)),
            keys_of(key, instructions@.take(i as int), keys@),
            keys@.len() <= i,
        decreases instructions@.len() - i,
    {
        let ghost before = keys@;
        if let Instruction::RmsNorm { dim, epsilon_milli } = &instructions[i].instruction {
            insert_key(&mut keys, (*dim, *epsilon_milli));
        }
        proof {
            lemma_keys_step(key, instructions@, i as int, before, keys@);
        }
        i += 1;
    }
    assert(instructions@.take(i as int) =~= instructions@);
    keys
}

/// One more instruction and its key, if it has one, are taken in.
proof fn lemma_keys_step(
    key: spec_fn(AssemblerInstruction) -> Option<(usize, u64)>,
    instructions: Seq<AssemblerInstruction>,
    i: int,
    before: Seq<(usize, u64)>,
    after: Seq<(usize, u64)>,
)
    requires
        0 <= i < instructions.len(),
        keys_of(key, instructions.take(i), before),
        sorted_keys(after),
        match key(instructions[i]) {
            Some(k) => {
                &&& after.contains(k)
                &&& forall|k2: (usize, u64)| before.contains(k2) ==> #[trigger] after.contains(k2)
                &&& forall|j: int|
                    0 <= j < after.len() ==> before.contains(#[trigger] after[j]) || after[j] == k
            },
            None => after == before,
        },
    ensures
        keys_of(key, instructions.take(i + 1), after),
{
    let prefix = instructions.take(i);
    let next = instructions.take(i + 1);
    assert forall|k: (usize, u64)| #[trigger] after.contains(k) <==> needed(key, next, k) by {
        if needed(key, next, k) {
            let t = choose|t: int| 0 <= t < next.len() && #[trigger] key(next[t]) == Some(k);
            if t < i {
                assert(prefix[t] == next[t]);
                assert(key(prefix[t]) == Some(k));
                assert(before.contains(k));
            }
        }
        if after.contains(k) {
            if before.contains(k) {
                let t = choose|t: int|
                    0 <= t < prefix.len() && #[trigger] key(prefix[t]) == Some(k);
                assert(next[t] == prefix[t]);
                assert(key(next[t]) == Some(k));
            } else {
                assert(next[i] == instructions[i]);
                assert(key(next[i]) == Some(k));
            }
        }
    }
}

/// Configures a dot product for every key.
fn configure_dots(meta: &mut ConstraintSystem, bits: Column, keys: &Vec<(usize, u64)>) -> (dots: Vec<
    DotProductConfig,
>)
    requires
        forall|i: int| 0 <= i < keys@.len() ==> (#[trigger] keys@[i]).0 > 0,
        bits.index < old(meta).advice,
        old(meta).advice + 8 * keys@.len() <= usize::MAX,
        old(meta).tables + 2 * keys@.len() <= usize::MAX,
    ensures
        dots@.len() == keys@.len(),
        forall|i: int|
            0 <= i < dots@.len() ==> {
                &&& (#[trigger] dots@[i]).wf()
                &&& dots@[i].distinct()
                &&& dots@[i].k == keys@[i].0
                &&& dot_tables_from(dots@[i], old(meta).tables + 2 * i)
                &&& dot_columns_from(dots@[i], bits, old(meta).advice + 8 * i)
            },
        final(meta).advice == old(meta).advice + 8 * keys@.len(),
        final(meta).tables == old(meta).tables + 2 * keys@.len(),
        final(meta).fixed == old(meta).fixed,
        final(meta).instance == old(meta).instance,
        final(meta).constants@ == old(meta).constants@,
        final(meta).extends(*old(meta)),
        forall|setup: Setup, i: int|
            #![trigger setup.cs.extends(*final(meta)), dots@[i]]
            setup.cs.extends(*final(meta)) && 0 <= i < dots@.len() ==> dots@[i].rules(setup),
        forall|setup: Setup|
            #![trigger setup.cs.extends(*final(meta))]
            setup.cs.extends(*final(meta)) && dots_loaded(dots@, setup) ==> setup.rests_between(
                *old(meta),
                *final(meta),
            ),
{
    let ghost base = *meta;
    proof {
        meta.lemma_extends_refl();
    }
    let mut dots: Vec<DotProductConfig> = Vec::new();
    let mut i: usize = 0;
    while i < keys.len()
        invariant
            i <= keys@.len(),
            forall|i: int| 0 <= i < keys@.len() ==> (#[trigger] keys@[i]).0 > 0,
            bits.index < base.advice,
            base.advice + 8 * keys@.len() <= usize::MAX,
            base.tables + 2 * keys@.len() <= usize::MAX,
            dots@.len() == i,
            forall|j: int|
                0 <= j < i ==> {
                    &&& (#[trigger] dots@[j]).wf()
                    &&& dots@[j].distinct()
                    &&& dots@[j].k == keys@[j].0
                    &&& dot_tables_from(dots@[j], base.tables + 2 * j)
                    &&& dot_columns_from(dots@[j], bits, base.advice + 8 * j)
                },
            meta.advice == base.advice + 8 * i,
            meta.tables == base.tables + 2 * i,
            meta.fixed == base.fixed,
            meta.instance == base.instance,
            meta.constants@ == base.constants@,
            meta.extends(base),
            forall|setup: Setup, j: int|
                #![trigger setup.cs.extends(*meta), dots@[j]]
                setup.cs.extends(*meta) && 0 <= j < i ==> dots@[j].rules(setup),
            forall|setup: Setup|
                #![trigger setup.cs.extends(*meta)]
                setup.cs.extends(*meta) && dots_loaded(dots@, setup) ==> setup.rests_between(
                    base,
                    *meta,
                ),
        decreases keys@.len() - i,
    {
        let ghost before = *meta;
        let ghost prev = dots@;
        assert(keys@[i as int].0 > 0);
        let a = meta.advice_column();
        let b = meta.advice_column();
        let accumulator = meta.advice_column();
        let q = meta.advice_column();
        let r = meta.advice_column();
        let slack = meta.advice_column();
        let k: usize = keys[i].0;
        let config = DotProductChip::configure(meta, a, b, accumulator, q, r, slack, bits, k);
        proof {
            broadcast use group_extends;

            assert(meta.extends(before));
            assert(meta.extends(base));
            assert forall|setup: Setup, j: int|
                #![trigger setup.cs.extends(*meta), dots@.push(config)[j]]
                setup.cs.extends(*meta) && 0 <= j < i + 1 implies dots@.push(config)[j].rules(
                setup,
            ) by {
                assert(setup.cs.extends(before));
                if j < i {
                    assert(dots@[j].rules(setup));
                }
            }
            let next = dots@.push(config);
            assert forall|setup: Setup|
                #![trigger setup.cs.extends(*meta)]
                setup.cs.extends(*meta) && dots_loaded(next, setup) implies setup.rests_between(
                base,
                *meta,
            ) by {
                assert(setup.cs.extends(before));
                assert(next[i as int].loaded(setup));
                assert forall|j: int| 0 <= j < i implies (#[trigger] prev[j]).loaded(setup) by {
                    assert(next[j].loaded(setup));
                }
                setup.lemma_rests_between(base, before, *meta);
            }
        }
        dots.push(config);
        i += 1;
    }
    dots
}

/// Adds advice columns.
fn advice_columns(meta: &mut ConstraintSystem, n: usize) -> (columns: Vec<Column>)
    requires
        old(meta).advice + n <= usize::MAX,
    ensures
        columns@.len() == n,
        forall|i: int|
            0 <= i < n ==> #[trigger] columns@[i] == (Column {
                kind: ColumnKind::Advice,
                index: (old(meta).advice + i) as usize,
            }),
        *final(meta) == (ConstraintSystem {
            advice: (old(meta).advice + n) as usize,
            ..*old(meta)
        }),
        final(meta).extends(*old(meta)),
{
    let ghost base = *meta;
    proof {
        meta.lemma_extends_refl();
    }
    let mut columns: Vec<Column> = Vec::new();
    let mut i: usize = 0;
    while i < n
        invariant
            i <= n,
            base.advice + n <= usize::MAX,
            columns@.len() == i,
            forall|j: int|
                0 <= j < i ==> #[trigger] columns@[j] == (Column {
                    kind: ColumnKind::Advice,
                    index: (base.advice + j) as usize,
                }),
            *meta == (ConstraintSystem { advice: (base.advice + i) as usize, ..base }),
            meta.extends(base),
        decreases n - i,
    {
        let ghost before = *meta;
        columns.push(meta.advice_column());
        proof {
            meta.lemma_extends_trans(before, base);
        }
        i += 1;
    }
    columns
}

/// Configures a normalization.
fn configure_rms_norm(meta: &mut ConstraintSystem, bits: Column, params: &RmsNormParams) -> (entry:
    RmsNormEntry)
    requires
        params.dim >= 1,
        params.points@.len() == params.values@.len(),
        bits.index < old(meta).advice,
        old(meta).advice + 22 <= usize::MAX,
        old(meta).tables + 4 <= usize::MAX,
    ensures
        entry.wf(),
        entry.chip.config.distinct(),
        entry.has(*params),
        entry.tables_from(old(meta).tables as int),
        entry.columns_from(bits, old(meta).advice as int),
        final(meta).advice == old(meta).advice + 22,
        final(meta).tables == old(meta).tables + 4,
        final(meta).fixed == old(meta).fixed,
        final(meta).instance == old(meta).instance,
        final(meta).constants@ == old(meta).constants@,
        final(meta).extends(*old(meta)),
        forall|setup: Setup|
            setup.cs.extends(*final(meta)) ==> #[trigger] entry.chip.config.rules(setup),
        forall|setup: Setup|
            #![trigger setup.cs.extends(*final(meta))]
            setup.cs.extends(*final(meta)) && entry.loaded(setup) ==> setup.rests_between(
                *old(meta),
                *final(meta),
            ),
{
    let ghost base = *meta;
    let c = advice_columns(meta, 20);
    let ghost mid = *meta;
    let config = RmsNormChip::configure(
        meta,
        c[0],
        c[1],
        c[2],
        c[3],
        c[4],
        c[5],
        c[6],
        c[7],
        c[8],
        c[9],
        c[10],
        c[11],
        c[12],
        c[13],
        bits,
        c[14],
        c[15],
        c[16],
        c[17],
        c[18],
        c[19],
        params.dim,
        params.reciprocal,
        params.epsilon,
    );
    proof {
        meta.lemma_extends_trans(mid, base);
    }
    let chip = RmsNormChip::construct(config, copied(&params.points), copied(&params.values));
    RmsNormEntry { dim: params.dim, epsilon_milli: params.epsilon_milli, chip }
}

/// Configures a normalization with each of the parameters.
fn configure_rms_norms(
    meta: &mut ConstraintSystem,
    bits: Column,
    params: &Vec<RmsNormParams>,
) -> (entries: Vec<RmsNormEntry>)
    requires
        forall|i: int|
            0 <= i < params@.len() ==> (#[trigger] params@[i]).dim >= 1
                && params@[i].points@.len() == params@[i].values@.len(),
        bits.index < old(meta).advice,
        old(meta).advice + 22 * params@.len() <= usize::MAX,
        old(meta).tables + 4 * params@.len() <= usize::MAX,
    ensures
        entries@.len() == params@.len(),
        forall|i: int|
            0 <= i < entries@.len() ==> {
                &&& (#[trigger] entries@[i]).wf()
                &&& entries@[i].chip.config.distinct()
                &&& entries@[i].has(params@[i])
                &&& entries@[i].tables_from(old(meta).tables + 4 * i)
                &&& entries@[i].columns_from(bits, old(meta).advice + 22 * i)
            },
        final(meta).advice == old(meta).advice + 22 * params@.len(),
        final(meta).tables == old(meta).tables + 4 * params@.len(),
        final(meta).fixed == old(meta).fixed,
        final(meta).instance == old(meta).instance,
        final(meta).constants@ == old(meta).constants@,
        final(meta).extends(*old(meta)),
        forall|setup: Setup, i: int|
            #![trigger setup.cs.extends(*final(meta)), entries@[i]]
            setup.cs.extends(*final(meta)) && 0 <= i < entries@.len()
                ==> entries@[i].chip.config.rules(setup),
        forall|setup: Setup|
            #![trigger setup.cs.extends(*final(meta))]
            setup.cs.extends(*final(meta)) && entries_loaded(entries@, setup)
                ==> setup.rests_between(*old(meta), *final(meta)),
{
    let ghost base = *meta;
    proof {
        meta.lemma_extends_refl();
    }
    let mut entries: Vec<RmsNormEntry> = Vec::new();
    let mut i: usize = 0;
    while i < params.len()
        invariant
            i <= params@.len(),
            forall|i: int|
                0 <= i < params@.len() ==> (#[trigger] params@[i]).dim >= 1
                    && params@[i].points@.len() == params@[i].values@.len(),
            bits.index < base.advice,
            base.advice + 22 * params@.len() <= usize::MAX,
            base.tables + 4 * params@.len() <= usize::MAX,
            entries@.len() == i,
            forall|j: int|
                0 <= j < i ==> {
                    &&& (#[trigger] entries@[j]).wf()
                    &&& entries@[j].chip.config.distinct()
                    &&& entries@[j].has(params@[j])
                    &&& entries@[j].tables_from(base.tables + 4 * j)
                    &&& entries@[j].columns_from(bits, base.advice + 22 * j)
                },
            meta.advice == base.advice + 22 * i,
            meta.tables == base.tables + 4 * i,
            meta.fixed == base.fixed,
            meta.instance == base.instance,
            meta.constants@ == base.constants@,
            meta.extends(base),
            forall|setup: Setup, j: int|
                #![trigger setup.cs.extends(*meta), entries@[j]]
                setup.cs.extends(*meta) && 0 <= j < i ==> entries@[j].chip.config.rules(setup),
            forall|setup: Setup|
                #![trigger setup.cs.extends(*meta)]
                setup.cs.extends(*meta) && entries_loaded(entries@, setup) ==> setup.rests_between(
                    base,
                    *meta,
                ),
        decreases params@.len() - i,
    {
        let ghost before = *meta;
        assert(params@[i as int].dim >= 1);
        let entry = configure_rms_norm(meta, bits, &params[i]);
        proof {
            broadcast use group_extends;

            assert(meta.extends(before));
            assert(meta.extends(base));
            assert forall|setup: Setup, j: int|
                #![trigger setup.cs.extends(*meta), entries@.push(entry)[j]]
                setup.cs.extends(*meta) && 0 <= j < i + 1 implies entries@.push(
                entry,
            )[j].chip.config.rules(setup) by {
                assert(setup.cs.extends(before));
                if j < i {
                    assert(entries@[j].chip.config.rules(setup));
                }
            }
            let prev = entries@;
            let next = prev.push(entry);
            assert forall|setup: Setup|
                #![trigger setup.cs.extends(*meta)]
                setup.cs.extends(*meta) && entries_loaded(next, setup) implies setup.rests_between(
                base,
                *meta,
            ) by {
                assert(setup.cs.extends(before));
                assert(next[i as int].loaded(setup));
                assert forall|j: int| 0 <= j < i implies (#[trigger] prev[j]).loaded(setup) by {
                    assert(next[j].loaded(setup));
                }
                setup.lemma_rests_between(base, before, *meta);
            }
        }
        entries.push(entry);
        i += 1;
    }
    entries
}

/// Instructions can be configured: dot products and normalizations are not empty, there are
/// parameters for each normalization, and the columns can be counted.
pub open spec fn configurable(
    cs: ConstraintSystem,
    instructions: Seq<AssemblerInstruction>,
    params: Seq<RmsNormParams>,
) -> bool {
    &&& forall|i: int|
        0 <= i < instructions.len() ==> (dot_key(#[trigger] instructions[i]) matches Some(k)
            ==> k.0 > 0)
    &&& keys_of(|i: AssemblerInstruction| rms_norm_key(i), instructions, param_keys(params))
    &&& forall|i: int|
        0 <= i < params.len() ==> (#[trigger] params[i]).dim >= 1 && params[i].points@.len()
            == params[i].values@.len()
    &&& cs.advice + 8 * instructions.len() + 22 * params.len() + 14 <= usize::MAX
    &&& cs.tables + 2 * instructions.len() + 4 * params.len() + 2 <= usize::MAX
    &&& cs.instance < usize::MAX
}

/// The configuration for instructions, and what it adds to a constraint system.
pub open spec fn configured(
    before: ConstraintSystem,
    after: ConstraintSystem,
    instructions: Seq<AssemblerInstruction>,
    params: Seq<RmsNormParams>,
    public: bool,
    config: AssemblerConfig,
) -> bool {
    &&& config.wf()
    &&& config.distinct()
    &&& keys_of(|i: AssemblerInstruction| dot_key(i), instructions, config.dot_keys())
    &&& config.rms_norm@.len() == params.len()
    &&& forall|i: int|
        0 <= i < params.len() ==> (#[trigger] config.rms_norm@[i]).has(params[i])
    &&& config.first_table == before.tables
    &&& config.public_instance == if public {
        Some(Column { kind: ColumnKind::Instance, index: before.instance })
    } else {
        None
    }
    &&& after.advice == before.advice + 8 * config.dot@.len() + 22 * params.len() + 14
    &&& config.columns_from(before.advice as int)
    &&& config.boundary == advice(after.advice - 3)
    &&& config.bridge.unshifted == advice(after.advice - 2)
    &&& config.bridge.shifted == advice(after.advice - 1)
    &&& after.tables == config.end_table()
    &&& after.fixed == before.fixed
    &&& after.instance == before.instance + if public {
        1int
    } else {
        0
    }
    &&& after.constants@ == before.constants@
    &&& after.extends(before)
    &&& forall|setup: Setup| setup.cs.extends(after) ==> #[trigger] config.rules(setup)
    &&& forall|setup: Setup|
        setup.cs.extends(after) && #[trigger] config.loaded(setup) ==> setup.rests_between(
            before,
            after,
        )
}

/// Configures the assembler for instructions: `public` asks for a column of public values.
#[verifier::rlimit(60)]
pub(crate) fn configure_assembler(
    meta: &mut ConstraintSystem,
    instructions: &Vec<AssemblerInstruction>,
    params: &Vec<RmsNormParams>,
    public: bool,
) -> (config: AssemblerConfig)
    requires
        configurable(*old(meta), instructions@, params@),
    ensures
        configured(*old(meta), *final(meta), instructions@, params@, public, config),
{
    let ghost base = *meta;
    let first_table: usize = meta.tables;
    let bits = meta.advice_column();
    let keys = dot_keys(instructions);
    proof {
        let key = |i: AssemblerInstruction| dot_key(i);
        assert forall|i: int| 0 <= i < keys@.len() implies (#[trigger] keys@[i]).0 > 0 by {
            assert(keys@.contains(keys@[i]));
            let t = choose|t: int|
                0 <= t < instructions@.len() && #[trigger] key(instructions@[t]) == Some(keys@[i]);
            assert(dot_key(instructions@[t]) == Some(keys@[i]));
        }
        assert forall|i: int| 0 <= i < keys@.len() implies (#[trigger] keys@[i]).1 == 0 by {
            assert(keys@.contains(keys@[i]));
            let t = choose|t: int|
                0 <= t < instructions@.len() && #[trigger] key(instructions@[t]) == Some(keys@[i]);
            assert(dot_key(instructions@[t]) == Some(keys@[i]));
        }
    }
    let ghost c0 = *meta;
    let dot = configure_dots(meta, bits, &keys);
    let ghost c1 = *meta;
    let a = advice_columns(meta, 3);
    let ghost c2 = *meta;
    let add = EltwiseAddChip::configure(meta, a[0], a[1], a[2], bits);
    let ghost c3 = *meta;
    let m = advice_columns(meta, 5);
    let ghost c4 = *meta;
    let mul = EltwiseMulChip::configure(meta, m[0], m[1], m[2], m[3], m[4], bits);
    let ghost c5 = *meta;
    let rms_norm = configure_rms_norms(meta, bits, params);
    let ghost c6 = *meta;
    let b = advice_columns(meta, 3);
    let boundary = b[0];
    let ghost c7 = *meta;
    meta.enable_equality(boundary);
    let ghost c8 = *meta;
    let bridge = configure_bridge(meta, b[2], b[1]);
    let ghost c9 = *meta;
    let public_instance = if public {
        let column = meta.instance_column();
        let ghost c10 = *meta;
        meta.enable_equality(column);
        proof {
            meta.lemma_extends_trans(c10, c9);
            meta.lemma_extends_keeps(c9);
        }
        Some(column)
    } else {
        proof {
            meta.lemma_extends_refl();
        }
        None
    };
    let config = AssemblerConfig {
        dot,
        add,
        mul,
        rms_norm,
        boundary,
        bridge,
        public_instance,
        first_table,
    };
    proof {
        meta.lemma_extends_trans(c9, c8);
        meta.lemma_extends_trans(c8, c7);
        meta.lemma_extends_trans(c7, c6);
        meta.lemma_extends_trans(c6, c5);
        meta.lemma_extends_trans(c5, c4);
        meta.lemma_extends_trans(c4, c3);
        meta.lemma_extends_trans(c3, c2);
        meta.lemma_extends_trans(c2, c1);
        meta.lemma_extends_trans(c1, c0);
        meta.lemma_extends_trans(c0, base);
        assert(config.dot_keys() =~= keys@);
        assert(config.rms_norm_keys() =~= param_keys(params@)) by {
            assert forall|i: int| 0 <= i < params@.len() implies #[trigger] config.rms_norm_keys()[i]
                == param_keys(params@)[i] by {
                assert(config.rms_norm@[i].has(params@[i]));
            }
        }
        assert forall|setup: Setup| setup.cs.extends(*meta) implies #[trigger] config.rules(
            setup,
        ) by {
            let cs = setup.cs;
            if public {
                cs.lemma_extends_keeps(*meta);
            }
            cs.lemma_extends_trans(*meta, c9);
            cs.lemma_extends_trans(c9, c8);
            cs.lemma_extends_keeps(c8);
            cs.lemma_extends_trans(c8, c7);
            cs.lemma_extends_trans(c7, c6);
            cs.lemma_extends_trans(c6, c5);
            cs.lemma_extends_trans(c5, c4);
            cs.lemma_extends_trans(c4, c3);
            cs.lemma_extends_trans(c3, c2);
            cs.lemma_extends_trans(c2, c1);
        }
        assert forall|setup: Setup|
            setup.cs.extends(*meta) && #[trigger] config.loaded(setup) implies setup.rests_between(
            base,
            *meta,
        ) by {
            let cs = setup.cs;
            cs.lemma_extends_trans(*meta, c9);
            cs.lemma_extends_trans(c9, c8);
            cs.lemma_extends_trans(c8, c7);
            cs.lemma_extends_trans(c7, c6);
            cs.lemma_extends_trans(c6, c5);
            cs.lemma_extends_trans(c5, c4);
            cs.lemma_extends_trans(c4, c3);
            cs.lemma_extends_trans(c3, c2);
            cs.lemma_extends_trans(c2, c1);
            assert(dots_loaded(dot@, setup));
            assert(entries_loaded(rms_norm@, setup)) by {
                assert forall|i: int| 0 <= i < rms_norm@.len() implies (
                #[trigger] rms_norm@[i]).loaded(setup) by {
                    assert(config.rms_norm_loaded(setup, i));
                }
            }
            setup.lemma_rests_between(base, c1, c3);
            setup.lemma_rests_between(base, c3, c5);
            setup.lemma_rests_between(base, c5, c6);
            setup.lemma_rests_between(base, c6, c9);
        }
    }
    config
}

} // verus!
