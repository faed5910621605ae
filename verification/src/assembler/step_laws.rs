//! What instructions do to their operands.
use vstd::arithmetic::div_mod::*;
use vstd::arithmetic::mul::*;
use vstd::prelude::*;

use crate::assembler::chip::{all_steps, program_registers, runs};
use crate::assembler::config::{
    configurable, configured, dot_key, key_below, keys_of, needed, param_keys, rms_norm_key,
    AssemblerConfig, RmsNormParams,
};
use crate::assembler::error::AssemblerError;
use crate::assembler::range::lemma_step_unique;
use crate::assembler::registers::{
    has_dot, has_rms_norm, is_rms_norm, runnable, step, the_rms_norm,
};
use crate::assembler::semantics::{
    apply, broadcasts, elementwise, elementwise_first_misfit, elementwise_fits_at,
    elementwise_misfit_text, index_a, index_b, lemma_index, lengths, steps_of, tensors_of,
    AssemblerInstruction, AssemblerProgram, Product, RegisterRef, Registers,
};
use crate::chips::dot_general::is_i128;
use crate::chips::layer_norm::scaled;
use crate::chips::lookup::{in_domain, lemma_value_at, value_at, LookupError};
use crate::chips::reduce::total;
use crate::chips::rms_norm::RmsNormError;
use crate::fixed_point::{
    is_i64, lemma_rescale_products, lemma_rescale_rounds_down, lemma_rescale_unique,
    requantize_mul_text, I18,
};
use crate::isa::{EltwiseOp, Instruction};
use crate::plonk::ConstraintSystem;

verus! {

/// So many copies of a sequence, one after the other.
pub open spec fn repeated(s: Seq<int>, times: nat) -> Seq<int>
    decreases times,
{
    if times == 0 {
        Seq::empty()
    } else {
        repeated(s, (times - 1) as nat) + s
    }
}

/// So many copies of a part, one at least, are as long as the whole.
pub open spec fn copies(times: nat, part: int, whole: int) -> bool {
    times > 0 && times * part == whole
}

/// A length is a whole number of copies of another.
pub open spec fn is_multiple(part: int, whole: int) -> bool {
    exists|times: nat| #[trigger] copies(times, part, whole)
}

/// A number is the result of an operation: the sum, or the product in units of ten to the
/// eighteenth, rounded down.
pub open spec fn is_result(op: EltwiseOp, x: int, y: int, z: int) -> bool {
    match op {
        EltwiseOp::Add => z == x + y,
        _ => z * 1_000_000_000_000_000_000 <= x * y < (z + 1) * 1_000_000_000_000_000_000,
    }
}

/// The instruction is a sum or a product of two registers that exist.
pub open spec fn is_eltwise(regs: Registers, i: AssemblerInstruction, op: EltwiseOp) -> bool {
    &&& i.instruction == (Instruction::Eltwise { op })
    &&& !(op is Relu)
    &&& i.inputs@.len() == 2
    &&& regs.has(i.inputs@[0])
    &&& regs.has(i.inputs@[1])
}

proof fn lemma_repeated(s: Seq<int>, times: nat, t: int)
    requires
        s.len() > 0,
    ensures
        repeated(s, times).len() == times * s.len(),
        0 <= t < times * s.len() ==> repeated(s, times)[t] == s[t % s.len() as int],
    decreases times,
{
    let n = s.len() as int;
    if times > 0 {
        let before = (times - 1) as nat;
        lemma_repeated(s, before, t);
        assert(times * n == before * n + n) by (nonlinear_arith)
            requires
                times == before + 1,
        ;
        if before * n <= t < times * n {
            lemma_fundamental_div_mod_converse(t, n, before as int, t - before * n);
        }
    } else {
        assert(times * n == 0) by (nonlinear_arith)
            requires
                times == 0,
        ;
    }
}

/// Lengths are broadcast-compatible exactly where neither is zero and one of them, whichever it
/// is, is a multiple of the other. The order of the two does not matter.
pub proof fn lemma_broadcasts(a: int, b: int)
    ensures
        broadcasts(a, b) <==> a > 0 && b > 0 && (is_multiple(a, b) || is_multiple(b, a)),
        broadcasts(a, b) == broadcasts(b, a),
{
    if a > 0 && b > 0 {
        lemma_multiple(a, b);
        lemma_multiple(b, a);
        lemma_mod_self_0(a);
        lemma_mod_self_0(b);
    }
}

proof fn lemma_multiple(part: int, whole: int)
    requires
        part > 0,
        whole > 0,
    ensures
        is_multiple(part, whole) <==> whole % part == 0,
        is_multiple(part, whole) ==> part <= whole,
{
    lemma_fundamental_div_mod(whole, part);
    if whole % part == 0 {
        let times = whole / part;
        lemma_mul_is_commutative(part, times);
        assert(times > 0) by (nonlinear_arith)
            requires
                times * part == whole,
                part > 0,
                whole > 0,
        ;
        assert(copies(times as nat, part, whole));
    }
    if is_multiple(part, whole) {
        let times = choose|times: nat| #[trigger] copies(times, part, whole);
        lemma_mod_multiples_basic(times as int, part);
        assert(part <= times * part) by (nonlinear_arith)
            requires
                times >= 1,
                part > 0,
        ;
    }
}

proof fn lemma_apply(op: EltwiseOp, x: int, y: int, z: int)
    requires
        !(op is Relu),
    ensures
        is_result(op, x, y, z) <==> z == apply(op, x, y),
        apply(op, x, y) == apply(op, y, x),
{
    lemma_rescale_rounds_down(x * y);
    lemma_rescale_products(x, y);
    if is_result(op, x, y, z) && op is Mul {
        lemma_rescale_unique(x * y, z, x * y - z * 1_000_000_000_000_000_000);
    }
}

/// An elementwise operation repeats the shorter operand. Where the second operand is so many
/// times as long as the first, the outcome is exactly the results of the copies of the first with
/// the second, number by number, provided that they are 64-bit integers.
pub proof fn lemma_eltwise_repeats_the_shorter(
    config: AssemblerConfig,
    regs: Registers,
    i: AssemblerInstruction,
    op: EltwiseOp,
    times: nat,
    out: Seq<int>,
    res: Result<Seq<int>, AssemblerError>,
)
    requires
        is_eltwise(regs, i, op),
        regs.get(i.inputs@[0]).len() > 0,
        copies(
            times,
            regs.get(i.inputs@[0]).len() as int,
            regs.get(i.inputs@[1]).len() as int,
        ),
    ensures
        ({
            let (a, b) = (regs.get(i.inputs@[0]), regs.get(i.inputs@[1]));
            let exact = out.len() == b.len() && forall|t: int|
                0 <= t < out.len() ==> is_i64(#[trigger] out[t]) && is_result(
                    op,
                    repeated(a, times)[t],
                    b[t],
                    out[t],
                );
            &&& step(config, regs, i, Ok(out)) <==> exact
            &&& exact && step(config, regs, i, res) ==> res == Ok::<Seq<int>, AssemblerError>(out)
        }),
{
    let (a, b) = (regs.get(i.inputs@[0]), regs.get(i.inputs@[1]));
    let (n, m) = (a.len() as int, b.len() as int);
    assert(is_multiple(n, m));
    assert(m > 0) by (nonlinear_arith)
        requires
            times * n == m,
            times > 0,
            n > 0,
    ;
    lemma_multiple(n, m);
    lemma_broadcasts(n, m);
    let all = elementwise(op, a, b);
    assert(all.len() == m);
    assert forall|t: int| 0 <= t < m implies #[trigger] all[t] == apply(
        op,
        repeated(a, times)[t],
        b[t],
    ) by {
        lemma_repeated(a, times, t);
        lemma_small_mod(t as nat, m as nat);
    }
    let exact = out.len() == b.len() && forall|t: int|
        0 <= t < out.len() ==> is_i64(#[trigger] out[t]) && is_result(
            op,
            repeated(a, times)[t],
            b[t],
            out[t],
        );
    if exact {
        assert forall|t: int| 0 <= t < m implies #[trigger] out[t] == all[t] by {
            lemma_apply(op, repeated(a, times)[t], b[t], out[t]);
        }
        assert(out =~= all);
        assert forall|t: int| 0 <= t < m implies #[trigger] elementwise_fits_at(op, a, b, t) by {
            assert(is_i64(out[t]));
        }
        assert(step(config, regs, i, Ok(out)));
        if step(config, regs, i, res) {
            lemma_step_unique(config, regs, i, out, res);
        }
    }
    if step(config, regs, i, Ok(out)) {
        assert(out == all);
        assert forall|t: int| 0 <= t < out.len() implies is_i64(#[trigger] out[t]) && is_result(
            op,
            repeated(a, times)[t],
            b[t],
            out[t],
        ) by {
            assert(elementwise_fits_at(op, a, b, t));
            lemma_apply(op, repeated(a, times)[t], b[t], out[t]);
        }
    }
}

/// The operands of an elementwise operation may change places: the outcome is the same.
pub proof fn lemma_eltwise_commutes(
    config: AssemblerConfig,
    regs: Registers,
    i: AssemblerInstruction,
    j: AssemblerInstruction,
    op: EltwiseOp,
    out: Seq<int>,
)
    requires
        is_eltwise(regs, i, op),
        j.instruction == i.instruction,
        j.inputs@ == seq![i.inputs@[1], i.inputs@[0]],
    ensures
        step(config, regs, i, Ok(out)) <==> step(config, regs, j, Ok(out)),
{
    let (a, b) = (regs.get(i.inputs@[0]), regs.get(i.inputs@[1]));
    assert(j.inputs@[0] == i.inputs@[1] && j.inputs@[1] == i.inputs@[0]);
    lemma_broadcasts(a.len() as int, b.len() as int);
    let (x, y) = (elementwise(op, a, b), elementwise(op, b, a));
    assert forall|t: int| 0 <= t < x.len() implies #[trigger] x[t] == y[t] by {
        lemma_apply(op, a[t % a.len() as int], b[t % b.len() as int], 0);
    }
    assert(x =~= y);
    assert forall|t: int| #![trigger elementwise_fits_at(op, a, b, t)]
        elementwise_fits_at(op, a, b, t) == elementwise_fits_at(op, b, a, t) by {}
    assert forall|t: int| #![trigger elementwise_fits_at(op, b, a, t)]
        elementwise_fits_at(op, a, b, t) == elementwise_fits_at(op, b, a, t) by {}
}

/// An elementwise operation refuses operands exactly where one is empty or neither length is a
/// multiple of the other, and says both lengths.
pub proof fn lemma_eltwise_refuses(
    config: AssemblerConfig,
    regs: Registers,
    i: AssemblerInstruction,
    op: EltwiseOp,
    res: Result<Seq<int>, AssemblerError>,
)
    requires
        is_eltwise(regs, i, op),
        step(config, regs, i, res),
    ensures
        ({
            let (a, b) = (
                regs.get(i.inputs@[0]).len() as int,
                regs.get(i.inputs@[1]).len() as int,
            );
            let fit = a > 0 && b > 0 && (is_multiple(a, b) || is_multiple(b, a));
            &&& fit ==> res is Ok || (res matches Err(AssemblerError::Overflow(_)))
            &&& !fit ==> (res matches Err(AssemblerError::EltwiseLengthMismatch { a_len, b_len })
                && a_len == a && b_len == b)
        }),
{
    lemma_broadcasts(
        regs.get(i.inputs@[0]).len() as int,
        regs.get(i.inputs@[1]).len() as int,
    );
}

/// The products that are summed for an element of a matrix product: the row of the first matrix
/// with the column of the second. A matrix is stored row by row, or its transpose is.
pub open spec fn dot_terms(
    i: Instruction,
    a: Seq<int>,
    b: Seq<int>,
    row: int,
    col: int,
) -> Seq<int> {
    match i {
        Instruction::DotGeneral { m, n, k, batch_dims, trans_a, trans_b } => Seq::new(
            k as nat,
            |l: int|
                (if trans_a {
                    a[l * m + row]
                } else {
                    a[row * k + l]
                }) * (if trans_b {
                    b[col * k + l]
                } else {
                    b[l * n + col]
                }),
        ),
        _ => Seq::empty(),
    }
}

/// The instruction is a matrix product of two registers that exist, with lengths that fit, for
/// which a dot product is configured.
pub open spec fn is_dot_general(
    config: AssemblerConfig,
    regs: Registers,
    i: AssemblerInstruction,
    m: usize,
    n: usize,
    k: usize,
) -> bool {
    &&& i.instruction matches Instruction::DotGeneral {
        m: rows,
        n: cols,
        k: inner,
        batch_dims,
        trans_a,
        trans_b,
    } && rows == m && cols == n && inner == k && batch_dims@.len() == 0
    &&& i.inputs@.len() == 2
    &&& regs.has(i.inputs@[0]) && regs.get(i.inputs@[0]).len() == m * k
    &&& regs.has(i.inputs@[1]) && regs.get(i.inputs@[1]).len() == k * n
    &&& has_dot(config, k)
}

proof fn lemma_dot_terms(i: Instruction, p: Product, a: Seq<int>, b: Seq<int>, row: int, col: int)
    requires
        i matches Instruction::DotGeneral { m, n, k, batch_dims, trans_a, trans_b } && p
            == (Product { m: m as int, n: n as int, k: k as int, trans_a, trans_b }),
    ensures
        p.terms(a, b, row, col) == dot_terms(i, a, b, row, col),
{
    assert(p.terms(a, b, row, col) =~= dot_terms(i, a, b, row, col));
}

/// A matrix product that succeeds had fitting operands, and each of its elements is the sum of a
/// row with a column, number by number, in units of ten to the eighteenth and rounded down.
pub proof fn lemma_dot_general_elements(
    config: AssemblerConfig,
    regs: Registers,
    i: AssemblerInstruction,
    m: usize,
    n: usize,
    k: usize,
    out: Seq<int>,
    row: int,
    col: int,
)
    requires
        i.instruction matches Instruction::DotGeneral {
            m: rows,
            n: cols,
            k: inner,
            batch_dims,
            trans_a,
            trans_b,
        } && rows == m && cols == n && inner == k,
        step(config, regs, i, Ok(out)),
        0 <= row < m,
        0 <= col < n,
    ensures
        is_dot_general(config, regs, i, m, n, k),
        out.len() == m * n,
        ({
            let z = out[row * n + col];
            let sum = total(
                dot_terms(
                    i.instruction,
                    regs.get(i.inputs@[0]),
                    regs.get(i.inputs@[1]),
                    row,
                    col,
                ),
            );
            &&& is_i64(z)
            &&& z * 1_000_000_000_000_000_000 <= sum < (z + 1) * 1_000_000_000_000_000_000
        }),
{
    let (a, b) = (regs.get(i.inputs@[0]), regs.get(i.inputs@[1]));
    if let Instruction::DotGeneral { m: _, n: _, k: _, batch_dims, trans_a, trans_b } = i.instruction {
        let p = Product { m: m as int, n: n as int, k: k as int, trans_a, trans_b };
        let t = row * n + col;
        lemma_index(m as int, n as int, row, col);
        lemma_dot_terms(i.instruction, p, a, b, row, col);
        assert(p.fits_at(a, b, t));
        lemma_rescale_rounds_down(total(p.terms(a, b, row, col)));
        assert(out == p.of(a, b));
    }
}

/// A matrix product of fitting operands succeeds where every sum stays in range: its partial sums
/// are 128-bit integers, and its quotient by ten to the eighteenth a 64-bit one.
pub proof fn lemma_dot_general_succeeds(
    config: AssemblerConfig,
    regs: Registers,
    i: AssemblerInstruction,
    m: usize,
    n: usize,
    k: usize,
    res: Result<Seq<int>, AssemblerError>,
)
    requires
        is_dot_general(config, regs, i, m, n, k),
        forall|row: int, col: int|
            0 <= row < m && 0 <= col < n ==> {
                let terms = #[trigger] dot_terms(
                    i.instruction,
                    regs.get(i.inputs@[0]),
                    regs.get(i.inputs@[1]),
                    row,
                    col,
                );
                &&& forall|c: int| 0 <= c <= k ==> is_i128(total(#[trigger] terms.take(c)))
                &&& i64::MIN * 1_000_000_000_000_000_000int <= total(terms) < (i64::MAX + 1)
                    * 1_000_000_000_000_000_000int
            },
        step(config, regs, i, res),
    ensures
        res is Ok,
{
    let (a, b) = (regs.get(i.inputs@[0]), regs.get(i.inputs@[1]));
    if let Instruction::DotGeneral { m: _, n: _, k: _, batch_dims, trans_a, trans_b } = i.instruction {
        let p = Product { m: m as int, n: n as int, k: k as int, trans_a, trans_b };
        assert forall|t: int| 0 <= t < p.m * p.n implies #[trigger] p.fits_at(a, b, t) by {
            let (row, col) = (t / p.n, t % p.n);
            assert(n > 0) by (nonlinear_arith)
                requires
                    0 <= t < m * n,
            ;
            lemma_fundamental_div_mod(t, p.n);
            assert(0 <= row < m) by (nonlinear_arith)
                requires
                    0 <= t < m * n,
                    n > 0,
                    row == t / (n as int),
            ;
            lemma_dot_terms(i.instruction, p, a, b, row, col);
            let terms = dot_terms(i.instruction, a, b, row, col);
            assert(terms.len() == k);
            lemma_rescale_rounds_down(total(terms));
        }
        assert(p.fits(a, b));
    }
}

/// The transpose of a matrix product is the product of the transposes in the other order.
pub proof fn lemma_dot_general_transposes(p: Product, a: Seq<int>, b: Seq<int>, i: int, j: int)
    requires
        0 <= i < p.m,
        0 <= j < p.n,
    ensures
        ({
            let q = Product {
                m: p.n,
                n: p.m,
                k: p.k,
                trans_a: !p.trans_b,
                trans_b: !p.trans_a,
            };
            p.of(a, b)[i * p.n + j] == q.of(b, a)[j * p.m + i]
        }),
{
    let q = Product { m: p.n, n: p.m, k: p.k, trans_a: !p.trans_b, trans_b: !p.trans_a };
    lemma_index(p.m, p.n, i, j);
    lemma_index(p.n, p.m, j, i);
    let (s, t) = (p.terms(a, b, i, j), q.terms(b, a, j, i));
    assert forall|l: int| 0 <= l < s.len() implies #[trigger] s[l] == t[l] by {
        lemma_mul_is_commutative(
            a[index_a(p.trans_a, p.m, p.k, i, l)],
            b[index_b(p.trans_b, p.n, p.k, l, j)],
        );
    }
    assert(s =~= t);
}

/// A normalization that succeeds has, for the value that the table gives at the mean square plus
/// epsilon, in each place the input times this value times the weight, each product in units of
/// ten to the eighteenth and rounded down.
pub proof fn lemma_rms_norm_elements(
    config: AssemblerConfig,
    regs: Registers,
    i: AssemblerInstruction,
    dim: usize,
    epsilon_milli: u64,
    out: Seq<int>,
)
    requires
        i.instruction == (Instruction::RmsNorm { dim, epsilon_milli }),
        step(config, regs, i, Ok(out)),
    ensures
        i.inputs@.len() == 2,
        regs.has(i.inputs@[0]) && regs.get(i.inputs@[0]).len() == dim,
        regs.has(i.inputs@[1]) && regs.get(i.inputs@[1]).len() == dim,
        has_rms_norm(config, dim, epsilon_milli),
        out.len() == dim,
        ({
            let (x, w) = (regs.get(i.inputs@[0]), regs.get(i.inputs@[1]));
            let chip = the_rms_norm(config, dim, epsilon_milli).chip;
            let point = chip.config.mean_square(x) + chip.config.epsilon@;
            exists|v: int, h: Seq<int>|
                #![trigger in_domain(chip.domain(), point, v), h.len()]
                in_domain(chip.domain(), point, v) && h.len() == dim && (
                forall|j: int|
                    0 <= j < dim ==> {
                        &&& (#[trigger] h[j]) * 1_000_000_000_000_000_000 <= x[j] * v < (h[j] + 1)
                            * 1_000_000_000_000_000_000
                        &&& out[j] * 1_000_000_000_000_000_000 <= h[j] * w[j] < (out[j] + 1)
                            * 1_000_000_000_000_000_000
                    })
        }),
{
    let (x, w) = (regs.get(i.inputs@[0]), regs.get(i.inputs@[1]));
    let chip = the_rms_norm(config, dim, epsilon_milli).chip;
    let point = chip.config.mean_square(x) + chip.config.epsilon@;
    lemma_value_at(chip.domain(), point);
    let v = value_at(chip.domain(), point)->Some_0@;
    let h = scaled(x, v);
    assert forall|j: int| 0 <= j < dim implies {
        &&& (#[trigger] h[j]) * 1_000_000_000_000_000_000 <= x[j] * v < (h[j] + 1)
            * 1_000_000_000_000_000_000
        &&& out[j] * 1_000_000_000_000_000_000 <= h[j] * w[j] < (out[j] + 1)
            * 1_000_000_000_000_000_000
    } by {
        lemma_rescale_rounds_down(x[j] * v);
        lemma_rescale_rounds_down(h[j] * w[j]);
    }
    assert(in_domain(chip.domain(), point, v) && h.len() == dim);
}

/// A normalization of fitting operands succeeds exactly where the mean square plus epsilon is a
/// point of its table; elsewhere it names that point.
pub proof fn lemma_rms_norm_succeeds(
    config: AssemblerConfig,
    regs: Registers,
    i: AssemblerInstruction,
    dim: usize,
    epsilon_milli: u64,
    res: Result<Seq<int>, AssemblerError>,
)
    requires
        i.instruction == (Instruction::RmsNorm { dim, epsilon_milli }),
        i.inputs@.len() == 2,
        regs.has(i.inputs@[0]) && regs.get(i.inputs@[0]).len() == dim,
        regs.has(i.inputs@[1]) && regs.get(i.inputs@[1]).len() == dim,
        has_rms_norm(config, dim, epsilon_milli),
        step(config, regs, i, res),
    ensures
        ({
            let chip = the_rms_norm(config, dim, epsilon_milli).chip;
            let point = chip.config.mean_square(regs.get(i.inputs@[0])) + chip.config.epsilon@;
            let known = exists|j: int|
                0 <= j < chip.domain().len() && (#[trigger] chip.domain()[j]).0@ == point;
            &&& known ==> res is Ok
            &&& !known ==> (res matches Err(
                AssemblerError::RmsNorm(RmsNormError::Rsqrt(LookupError::InputNotInDomain(x))),
            ) && x@ == point)
        }),
{
    let chip = the_rms_norm(config, dim, epsilon_milli).chip;
    let point = chip.config.mean_square(regs.get(i.inputs@[0])) + chip.config.epsilon@;
    lemma_value_at(chip.domain(), point);
}

/// A normalization is done with its own dimension and epsilon.
pub proof fn lemma_rms_norm_is_its_own(
    config: AssemblerConfig,
    dim: usize,
    epsilon_milli: u64,
    at: int,
)
    requires
        config.wf(),
        0 <= at < config.rms_norm@.len(),
        config.rms_norm@[at].dim == dim,
        config.rms_norm@[at].epsilon_milli == epsilon_milli,
    ensures
        has_rms_norm(config, dim, epsilon_milli),
        the_rms_norm(config, dim, epsilon_milli) == config.rms_norm@[at],
{
    assert(is_rms_norm(config, dim, epsilon_milli, at));
    let other = choose|j: int| #[trigger] is_rms_norm(config, dim, epsilon_milli, j);
    let keys = config.rms_norm_keys();
    assert(keys[other] == keys[at]);
    if other < at {
        assert(key_below(keys[other], keys[at]));
    } else if at < other {
        assert(key_below(keys[at], keys[other]));
    }
}

/// Only sums, products, matrix products and normalizations by the root mean square are taken. An
/// instruction of another kind is refused as unsupported, whatever it reads, and none of these
/// is.
pub proof fn lemma_supported_instructions(
    config: AssemblerConfig,
    regs: Registers,
    i: AssemblerInstruction,
    res: Result<Seq<int>, AssemblerError>,
)
    requires
        step(config, regs, i, res),
    ensures
        (res matches Err(AssemblerError::UnsupportedInstruction(_))) <==> !(
        i.instruction is DotGeneral || i.instruction is RmsNorm || i.instruction
            == (Instruction::Eltwise { op: EltwiseOp::Add }) || i.instruction
            == (Instruction::Eltwise { op: EltwiseOp::Mul })),
{
}

/// An instruction that succeeds has two inputs, both among the registers that exist when it is
/// reached: an input or weight of the program, or the output of an earlier instruction.
pub proof fn lemma_operands_exist(
    config: AssemblerConfig,
    regs: Registers,
    i: AssemblerInstruction,
    out: Seq<int>,
    at: int,
)
    requires
        step(config, regs, i, Ok(out)),
        0 <= at < 2,
    ensures
        i.inputs@.len() == 2,
        match i.inputs@[at] {
            RegisterRef::Input(n) => n < regs.inputs.len() && regs.get(i.inputs@[at])
                == regs.inputs[n as int],
            RegisterRef::Weight(n) => n < regs.weights.len() && regs.get(i.inputs@[at])
                == regs.weights[n as int],
            RegisterRef::Virtual(n) => n < regs.virtuals.len() && regs.get(i.inputs@[at])
                == regs.virtuals[n as int],
        },
{
}

/// The first input that does not exist is the one that the error names, by its kind and index.
pub proof fn lemma_missing_operand(
    config: AssemblerConfig,
    regs: Registers,
    i: AssemblerInstruction,
    op: EltwiseOp,
    res: Result<Seq<int>, AssemblerError>,
)
    requires
        i.instruction == (Instruction::Eltwise { op }) && !(op is Relu) || (i.instruction matches
            Instruction::DotGeneral { m, n, k, batch_dims, trans_a, trans_b } && batch_dims@.len()
            == 0) || i.instruction is RmsNorm,
        i.inputs@.len() == 2,
        !regs.has(i.inputs@[0]) || !regs.has(i.inputs@[1]),
        step(config, regs, i, res),
    ensures
        res matches Err(AssemblerError::RegisterIndexOutOfRange { kind, index }) && {
            let missing = if regs.has(i.inputs@[0]) {
                i.inputs@[1]
            } else {
                i.inputs@[0]
            };
            match missing {
                RegisterRef::Input(n) => kind@ == "input"@ && index == n && n
                    >= regs.inputs.len(),
                RegisterRef::Weight(n) => kind@ == "weight"@ && index == n && n
                    >= regs.weights.len(),
                RegisterRef::Virtual(n) => kind@ == "virtual"@ && index == n && n
                    >= regs.virtuals.len(),
            }
        },
{
}

proof fn lemma_has_dot(instructions: Seq<AssemblerInstruction>, config: AssemblerConfig, t: int)
    requires
        keys_of(|i: AssemblerInstruction| dot_key(i), instructions, config.dot_keys()),
        0 <= t < instructions.len(),
    ensures
        instructions[t].instruction matches Instruction::DotGeneral {
            m,
            n,
            k,
            batch_dims,
            trans_a,
            trans_b,
        } ==> has_dot(config, k),
{
    if let Instruction::DotGeneral { m, n, k, batch_dims, trans_a, trans_b } =
        instructions[t].instruction {
        let key = |i: AssemblerInstruction| dot_key(i);
        assert(key(instructions[t]) == Some((k, 0u64)));
        assert(needed(key, instructions, (k, 0u64)));
        let keys = config.dot_keys();
        assert(keys.contains((k, 0u64)));
        let j = choose|j: int| 0 <= j < keys.len() && keys[j] == (k, 0u64);
        assert(config.dot@[j].k == k);
    }
}

proof fn lemma_has_rms_norm(
    instructions: Seq<AssemblerInstruction>,
    params: Seq<RmsNormParams>,
    config: AssemblerConfig,
    t: int,
)
    requires
        keys_of(|i: AssemblerInstruction| rms_norm_key(i), instructions, param_keys(params)),
        config.rms_norm@.len() == params.len(),
        forall|i: int|
            0 <= i < params.len() ==> (#[trigger] config.rms_norm@[i]).has(params[i]),
        0 <= t < instructions.len(),
    ensures
        instructions[t].instruction matches Instruction::RmsNorm { dim, epsilon_milli }
            ==> has_rms_norm(config, dim, epsilon_milli),
{
    if let Instruction::RmsNorm { dim, epsilon_milli } = instructions[t].instruction {
        let key = |i: AssemblerInstruction| rms_norm_key(i);
        assert(key(instructions[t]) == Some((dim, epsilon_milli)));
        assert(needed(key, instructions, (dim, epsilon_milli)));
        let keys = param_keys(params);
        assert(keys.contains((dim, epsilon_milli)));
        let j = choose|j: int| 0 <= j < keys.len() && keys[j] == (dim, epsilon_milli);
        assert(config.rms_norm@[j].has(params[j]));
        assert(is_rms_norm(config, dim, epsilon_milli, j));
    }
}

/// The instruction is a matrix product whose sums have so many terms.
pub open spec fn is_product_of_length(i: AssemblerInstruction, length: usize) -> bool {
    match i.instruction {
        Instruction::DotGeneral { m, n, k, batch_dims, trans_a, trans_b } => k == length,
        _ => false,
    }
}

/// The keys of instructions increase, so none occurs twice; each is the length of a matrix product
/// among them, and each such length is a key.
pub proof fn lemma_dot_keys(instructions: Seq<AssemblerInstruction>, keys: Seq<(usize, u64)>, i: int)
    requires
        keys_of(|i: AssemblerInstruction| dot_key(i), instructions, keys),
        0 <= i < keys.len(),
    ensures
        i + 1 < keys.len() ==> keys[i].0 < keys[i + 1].0,
        exists|t: int|
            0 <= t < instructions.len() && is_product_of_length(
                #[trigger] instructions[t],
                keys[i].0,
            ),
{
    let key = |i: AssemblerInstruction| dot_key(i);
    assert(keys.contains(keys[i]));
    let t = choose|t: int|
        0 <= t < instructions.len() && #[trigger] key(instructions[t]) == Some(keys[i]);
    assert(dot_key(instructions[t]) == Some(keys[i]));
    if i + 1 < keys.len() {
        assert(key_below(keys[i], keys[i + 1]));
        assert(keys.contains(keys[i + 1]));
        let u = choose|u: int|
            0 <= u < instructions.len() && #[trigger] key(instructions[u]) == Some(keys[i + 1]);
        assert(dot_key(instructions[u]) == Some(keys[i + 1]));
    }
}

/// The keys of normalizations increase by dimension and then by epsilon; each is that of a
/// normalization among the instructions.
pub proof fn lemma_rms_norm_keys(
    instructions: Seq<AssemblerInstruction>,
    keys: Seq<(usize, u64)>,
    i: int,
)
    requires
        keys_of(|i: AssemblerInstruction| rms_norm_key(i), instructions, keys),
        0 <= i < keys.len(),
    ensures
        i + 1 < keys.len() ==> keys[i].0 < keys[i + 1].0 || (keys[i].0 == keys[i + 1].0
            && keys[i].1 < keys[i + 1].1),
        exists|t: int|
            0 <= t < instructions.len() && (#[trigger] instructions[t]).instruction
                == (Instruction::RmsNorm { dim: keys[i].0, epsilon_milli: keys[i].1 }),
{
    let key = |i: AssemblerInstruction| rms_norm_key(i);
    assert(keys.contains(keys[i]));
    let t = choose|t: int|
        0 <= t < instructions.len() && #[trigger] key(instructions[t]) == Some(keys[i]);
    assert(rms_norm_key(instructions[t]) == Some(keys[i]));
    if i + 1 < keys.len() {
        assert(key_below(keys[i], keys[i + 1]));
    }
}

/// A matrix product of two registers that exist refuses lengths other than those of its two
/// matrices and says what it expected, and refuses a length of dot products that is not
/// configured.
pub proof fn lemma_dot_general_refuses(
    config: AssemblerConfig,
    regs: Registers,
    i: AssemblerInstruction,
    m: usize,
    n: usize,
    k: usize,
    res: Result<Seq<int>, AssemblerError>,
)
    requires
        i.instruction matches Instruction::DotGeneral {
            m: rows,
            n: cols,
            k: inner,
            batch_dims,
            trans_a,
            trans_b,
        } && rows == m && cols == n && inner == k && batch_dims@.len() == 0,
        i.inputs@.len() == 2,
        regs.has(i.inputs@[0]),
        regs.has(i.inputs@[1]),
        step(config, regs, i, res),
    ensures
        ({
            let (a, b) = (regs.get(i.inputs@[0]).len(), regs.get(i.inputs@[1]).len());
            let fit = a == m * k && b == k * n;
            &&& !fit ==> (res matches Err(
                AssemblerError::DotGeneralShapeMismatch { expected_a, got_a, expected_b, got_b },
            ) && expected_a == m * k && got_a == a && expected_b == k * n && got_b == b)
            &&& fit && !has_dot(config, k) ==> (res matches Err(
                AssemblerError::UnconfiguredDotK { k: missing },
            ) && missing == k)
            &&& fit && has_dot(config, k) ==> res is Ok || (res matches Err(
                AssemblerError::Overflow(_),
            ))
        }),
{
}

/// A normalization of two registers that exist refuses lengths other than its dimension, and a
/// dimension and epsilon that are not configured.
pub proof fn lemma_rms_norm_refuses(
    config: AssemblerConfig,
    regs: Registers,
    i: AssemblerInstruction,
    dim: usize,
    epsilon_milli: u64,
    res: Result<Seq<int>, AssemblerError>,
)
    requires
        i.instruction == (Instruction::RmsNorm { dim, epsilon_milli }),
        i.inputs@.len() == 2,
        regs.has(i.inputs@[0]),
        regs.has(i.inputs@[1]),
        step(config, regs, i, res),
    ensures
        ({
            let (x, w) = (regs.get(i.inputs@[0]).len(), regs.get(i.inputs@[1]).len());
            let fit = x == dim && w == dim;
            &&& !fit ==> (res matches Err(
                AssemblerError::RmsNormShapeMismatch { dim: d, got_x, got_weight },
            ) && d == dim && got_x == x && got_weight == w)
            &&& fit && !has_rms_norm(config, dim, epsilon_milli) ==> (res matches Err(
                AssemblerError::UnconfiguredRmsNorm { dim: d, epsilon_milli: e },
            ) && d == dim && e == epsilon_milli)
        }),
{
}

/// An instruction of another count of inputs than two is refused with its count; a matrix product
/// with batch dimensions is refused before that.
pub proof fn lemma_input_counts(
    config: AssemblerConfig,
    regs: Registers,
    i: AssemblerInstruction,
    res: Result<Seq<int>, AssemblerError>,
)
    requires
        i.inputs@.len() != 2,
        step(config, regs, i, res),
    ensures
        match i.instruction {
            Instruction::DotGeneral { m, n, k, batch_dims, trans_a, trans_b } => if batch_dims@.len()
                > 0 {
                res matches Err(AssemblerError::DotGeneralBatchDimsUnsupported)
            } else {
                res matches Err(AssemblerError::DotGeneralInputCount { expected, got }) && expected
                    == 2 && got == i.inputs@.len()
            },
            Instruction::Eltwise { op } => op is Relu || (res matches Err(
                AssemblerError::EltwiseInputCount { expected, got },
            ) && expected == 2 && got == i.inputs@.len()),
            Instruction::RmsNorm { dim, epsilon_milli } => res matches Err(
                AssemblerError::RmsNormInputCount { expected, got },
            ) && expected == 2 && got == i.inputs@.len(),
            _ => res is Err,
        },
{
}

/// The overflow of an elementwise operation is that of the first element out of range: that of a
/// product names the two numbers.
pub proof fn lemma_eltwise_overflow(
    config: AssemblerConfig,
    regs: Registers,
    i: AssemblerInstruction,
    op: EltwiseOp,
    times: nat,
    res: Result<Seq<int>, AssemblerError>,
)
    requires
        is_eltwise(regs, i, op),
        regs.get(i.inputs@[0]).len() > 0,
        copies(
            times,
            regs.get(i.inputs@[0]).len() as int,
            regs.get(i.inputs@[1]).len() as int,
        ),
        step(config, regs, i, res),
    ensures
        res matches Err(AssemblerError::Overflow(msg)) ==> {
            let (a, b) = (regs.get(i.inputs@[0]), regs.get(i.inputs@[1]));
            exists|t: int|
                0 <= t < b.len() && !is_i64(apply(op, repeated(a, times)[t], #[trigger] b[t])) && (
                forall|s: int|
                    0 <= s < t ==> is_i64(apply(op, repeated(a, times)[s], #[trigger] b[s]))) && (
                op is Mul ==> msg@ == requantize_mul_text(repeated(a, times)[t], b[t]))
        },
{
    if let Err(AssemblerError::Overflow(msg)) = res {
        let (a, b) = (regs.get(i.inputs@[0]), regs.get(i.inputs@[1]));
        let (n, m) = (a.len() as int, b.len() as int);
        assert(m > 0) by (nonlinear_arith)
            requires
                times * n == m,
                times > 0,
                n > 0,
        ;
        assert(is_multiple(n, m));
        lemma_multiple(n, m);
        lemma_broadcasts(n, m);
        assert forall|t: int| 0 <= t < m implies a[t % n] == repeated(a, times)[t] && b[t % m]
            == #[trigger] b[t] by {
            lemma_repeated(a, times, t);
            lemma_small_mod(t as nat, m as nat);
        }
        let t = choose|t: int| #[trigger]
            elementwise_first_misfit(op, a, b, t) && msg@ == elementwise_misfit_text(op, a, b, t);
        assert(b[t] == b[t % m]);
        assert forall|s: int| 0 <= s < t implies is_i64(
            apply(op, repeated(a, times)[s], #[trigger] b[s]),
        ) by {
            assert(elementwise_fits_at(op, a, b, s));
        }
    }
}

/// Elementwise operations can always be run, matrix products where the lengths of their matrices
/// can be counted, and instructions that no chip takes as well.
pub proof fn lemma_runnable_instructions(
    config: AssemblerConfig,
    regs: Registers,
    i: AssemblerInstruction,
)
    ensures
        !(i.instruction is DotGeneral) && !(i.instruction is RmsNorm) ==> runnable(config, regs, i),
        i.instruction matches Instruction::DotGeneral { m, n, k, batch_dims, trans_a, trans_b } && m
            * k <= usize::MAX && k * n <= usize::MAX ==> runnable(config, regs, i),
        i.instruction matches Instruction::RmsNorm { dim, epsilon_milli } && !has_rms_norm(
            config,
            dim,
            epsilon_milli,
        ) ==> runnable(config, regs, i),
{
}

proof fn lemma_never_unconfigured(
    config: AssemblerConfig,
    regs: Registers,
    i: AssemblerInstruction,
    res: Result<Seq<int>, AssemblerError>,
)
    requires
        i.instruction matches Instruction::DotGeneral { m, n, k, batch_dims, trans_a, trans_b }
            ==> has_dot(config, k),
        i.instruction matches Instruction::RmsNorm { dim, epsilon_milli } ==> has_rms_norm(
            config,
            dim,
            epsilon_milli,
        ),
        step(config, regs, i, res),
    ensures
        !(res matches Err(AssemblerError::UnconfiguredDotK { .. })),
        !(res matches Err(AssemblerError::UnconfiguredRmsNorm { .. })),
{
}

/// A configuration has a chip for each matrix product and each normalization that it was made
/// for, so none of its instructions is refused for want of one.
#[verifier::rlimit(40)]
pub proof fn lemma_configured_for_its_instructions(
    before: ConstraintSystem,
    after: ConstraintSystem,
    instructions: Seq<AssemblerInstruction>,
    params: Seq<RmsNormParams>,
    public: bool,
    config: AssemblerConfig,
    regs: Registers,
    t: int,
    res: Result<Seq<int>, AssemblerError>,
)
    requires
        configured(before, after, instructions, params, public, config),
        configurable(before, instructions, params),
        0 <= t < instructions.len(),
        step(config, regs, instructions[t], res),
    ensures
        !(res matches Err(AssemblerError::UnconfiguredDotK { .. })),
        !(res matches Err(AssemblerError::UnconfiguredRmsNorm { .. })),
        instructions[t].instruction matches Instruction::DotGeneral {
            m,
            n,
            k,
            batch_dims,
            trans_a,
            trans_b,
        } ==> has_dot(config, k),
        instructions[t].instruction matches Instruction::RmsNorm { dim, epsilon_milli }
            ==> has_rms_norm(config, dim, epsilon_milli),
{
    lemma_has_dot(instructions, config, t);
    lemma_has_rms_norm(instructions, params, config, t);
    lemma_never_unconfigured(config, regs, instructions[t], res);
}

/// A program that succeeds has an output for every instruction, each the outcome of its
/// instruction on the program's own inputs and weights and the outputs before it.
pub proof fn lemma_runs_step_by_step(
    config: AssemblerConfig,
    program: AssemblerProgram,
    outputs: Seq<Seq<int>>,
    regs: Registers,
    t: int,
)
    requires
        runs(config, program, Ok(outputs)),
        0 <= t < program.instructions@.len(),
        regs.virtuals == outputs.take(t),
        regs.inputs.len() == program.input_values@.len(),
        forall|i: int|
            0 <= i < regs.inputs.len() ==> (#[trigger] regs.inputs[i]).len()
                == program.input_values@[i]@.len(),
        forall|i: int, j: int|
            0 <= i < regs.inputs.len() && 0 <= j < regs.inputs[i].len()
                ==> #[trigger] regs.inputs[i][j] == program.input_values@[i]@[j]@,
        regs.weights.len() == program.weight_values@.len(),
        forall|i: int|
            0 <= i < regs.weights.len() ==> (#[trigger] regs.weights[i]).len()
                == program.weight_values@[i]@.len(),
        forall|i: int, j: int|
            0 <= i < regs.weights.len() && 0 <= j < regs.weights[i].len()
                ==> #[trigger] regs.weights[i][j] == program.weight_values@[i]@[j]@,
    ensures
        outputs.len() == program.instructions@.len(),
        step(config, regs, program.instructions@[t], Ok(outputs[t])),
{
    let own = program_registers(program, outputs.take(t));
    assert forall|i: int| 0 <= i < regs.inputs.len() implies regs.inputs[i] == own.inputs[i] by {
        assert(regs.inputs[i].len() == program.input_values@[i]@.len());
        assert(regs.inputs[i] =~= own.inputs[i]);
    }
    assert forall|i: int| 0 <= i < regs.weights.len() implies regs.weights[i]
        == own.weights[i] by {
        assert(regs.weights[i].len() == program.weight_values@[i]@.len());
        assert(regs.weights[i] =~= own.weights[i]);
    }
    assert(regs.inputs =~= own.inputs);
    assert(regs.weights =~= own.weights);
    assert(outputs[t] == outputs[t]);
}

/// A program that fails fails at the first instruction that does, after the outputs of those
/// before it.
pub proof fn lemma_fails_at_first(
    config: AssemblerConfig,
    program: AssemblerProgram,
    e: AssemblerError,
)
    requires
        runs(config, program, Err(e)),
    ensures
        exists|outputs: Seq<Seq<int>>|
            outputs.len() < program.instructions@.len() && #[trigger] step(
                config,
                program_registers(program, outputs),
                program.instructions@[outputs.len() as int],
                Err(e),
            ) && forall|t: int|
                0 <= t < outputs.len() ==> step(
                    config,
                    program_registers(program, outputs.take(t)),
                    program.instructions@[t],
                    Ok(#[trigger] outputs[t]),
                ),
{
    let outputs = choose|outputs: Seq<Seq<int>>| #[trigger]
        all_steps(config, program, outputs) && outputs.len()
            < program.instructions@.len() && step(
            config,
            program_registers(program, outputs),
            program.instructions@[outputs.len() as int],
            Err(e),
        );
    assert(step(
        config,
        program_registers(program, outputs),
        program.instructions@[outputs.len() as int],
        Err(e),
    ));
}

/// Two instructions are modelled alike only where they are of one kind and agree in every field,
/// and each field of the model is the instruction's field of that name.
pub proof fn lemma_instruction_is_its_model(a: Instruction, b: Instruction)
    ensures
        a@ == b@ ==> match (a, b) {
            (
                Instruction::DotGeneral { m, n, k, batch_dims, trans_a, trans_b },
                Instruction::DotGeneral {
                    m: m2,
                    n: n2,
                    k: k2,
                    batch_dims: d2,
                    trans_a: a2,
                    trans_b: b2,
                },
            ) => m == m2 && n == n2 && k == k2 && batch_dims@ == d2@ && trans_a == a2 && trans_b
                == b2,
            _ => a == b,
        },
        a matches Instruction::DotGeneral { m, n, k, batch_dims, trans_a, trans_b }
            ==> a@->DotGeneral_m == m && a@->DotGeneral_n == n && a@->DotGeneral_k == k
            && a@->DotGeneral_batch_dims == batch_dims@ && a@->trans_a == trans_a && a@->trans_b
            == trans_b,
        a matches Instruction::LayerNorm { dim, epsilon_milli } ==> a@->LayerNorm_dim == dim
            && a@->LayerNorm_epsilon_milli == epsilon_milli,
        a matches Instruction::RmsNorm { dim, epsilon_milli } ==> a@->RmsNorm_dim == dim
            && a@->RmsNorm_epsilon_milli == epsilon_milli,
        a is DotGeneral <==> a@ is DotGeneral,
        a is LayerNorm <==> a@ is LayerNorm,
        a is RmsNorm <==> a@ is RmsNorm,
{
}

/// A list of instructions is modelled instruction by instruction, in order and with none left
/// out: a copy has the instructions, each with the registers it reads.
pub proof fn lemma_steps_in_order(xs: Seq<AssemblerInstruction>, ys: Seq<AssemblerInstruction>)
    ensures
        steps_of(xs + ys) == steps_of(xs) + steps_of(ys),
        steps_of(xs) == steps_of(ys) ==> xs.len() == ys.len() && forall|i: int|
            0 <= i < xs.len() ==> (#[trigger] xs[i]).instruction@ == ys[i].instruction@
                && xs[i].inputs@ == ys[i].inputs@,
{
    assert(steps_of(xs + ys) =~= steps_of(xs) + steps_of(ys));
    if steps_of(xs) == steps_of(ys) {
        assert(xs.len() == steps_of(xs).len() && ys.len() == steps_of(ys).len());
        assert forall|i: int| 0 <= i < xs.len() implies (#[trigger] xs[i]).instruction@
            == ys[i].instruction@ && xs[i].inputs@ == ys[i].inputs@ by {
            assert(steps_of(xs)[i] == xs[i]@ && steps_of(ys)[i] == ys[i]@);
        }
    }
}

/// A list of tensors is modelled tensor by tensor, in order and with none left out: a copy has
/// the same numbers, and the sizes are the counts of them.
pub proof fn lemma_tensors_in_order(xs: Seq<Vec<I18>>, ys: Seq<Vec<I18>>)
    ensures
        tensors_of(xs + ys) == tensors_of(xs) + tensors_of(ys),
        lengths(xs + ys) == lengths(xs) + lengths(ys),
        lengths(xs).len() == xs.len(),
        forall|i: int|
            0 <= i < xs.len() ==> #[trigger] lengths(xs)[i] == xs[i]@.len() as usize,
        tensors_of(xs) == tensors_of(ys) ==> xs.len() == ys.len() && forall|i: int|
            0 <= i < xs.len() ==> (#[trigger] xs[i])@ == ys[i]@,
{
    assert(tensors_of(xs + ys) =~= tensors_of(xs) + tensors_of(ys));
    assert(lengths(xs + ys) =~= lengths(xs) + lengths(ys));
    if tensors_of(xs) == tensors_of(ys) {
        assert(xs.len() == tensors_of(xs).len() && ys.len() == tensors_of(ys).len());
        assert forall|i: int| 0 <= i < xs.len() implies (#[trigger] xs[i])@ == ys[i]@ by {
            assert(tensors_of(xs)[i] == xs[i]@ && tensors_of(ys)[i] == ys[i]@);
        }
    }
}

} // verus!
