//! What messages say: the numbers of an error stand in its message, in a fixed wording and a fixed
//! order.
use vstd::prelude::*;

use crate::assembler::error::AssemblerError;
use crate::assembler::semantics::unsupported_name;
use crate::chips::div::{quotient_overflow_text, DivError};
use crate::chips::dot_general::DotProductError;
use crate::chips::embed_lookup::EmbedLookupError;
use crate::chips::layer_norm::LayerNormError;
use crate::chips::lookup::LookupError;
use crate::chips::patch_embed::PatchEmbedError;
use crate::chips::poseidon_boundary::descriptor::BoundaryCommitmentError;
use crate::chips::rms_norm::RmsNormError;
use crate::chips::softmax::SoftmaxError;
use crate::fixed_point::{requantize_mul_text, requantize_raw_text, I18};
use crate::isa::{EltwiseOp, Instruction, ReduceOp};
use crate::tensor::{mismatch_text, product};
use crate::text::{decimal, list_text, signed_decimal};

verus! {

/// The message of a tensor that does not fit its shape names the count of its elements, the shape
/// and the span of the shape.
pub proof fn lemma_mismatch_message() -> (w: [Seq<char>; 4])
    ensures
        forall|shape: Seq<usize>, len: int| #[trigger]
            mismatch_text(shape, len) == w[0] + decimal(len) + w[1] + list_text(shape) + w[2]
                + decimal(product(shape)) + w[3],
{
    ["data length "@, " does not match shape "@, " (expected "@, ")"@]
}

/// The message of a requantization that is out of range names the value, that of a product both
/// factors, and that of a division numerator and divisor, in this order.
pub proof fn lemma_range_messages() -> (w: [Seq<char>; 8])
    ensures
        forall|v: int| #[trigger] requantize_raw_text(v) == w[0] + signed_decimal(v) + w[1],
        forall|a: int, b: int| #[trigger]
            requantize_mul_text(a, b) == w[2] + signed_decimal(a) + w[3] + signed_decimal(b)
                + w[4],
        forall|n: int, d: int| #[trigger]
            quotient_overflow_text(n, d) == w[5] + signed_decimal(n) + w[6] + signed_decimal(d)
                + w[7],
{
    [
        "raw value "@,
        " requantizes to a quotient that overflows I18 range"@,
        "product of raw values "@,
        " and "@,
        " overflows I18 range"@,
        "raw values "@,
        " / "@,
        " requantizes to a quotient that overflows I18 range"@,
    ]
}

/// A count that is wrong is named after the count that was expected.
pub proof fn lemma_count_messages() -> (w: [Seq<char>; 16])
    ensures
        forall|expected: usize, got: usize| #[trigger]
            (SoftmaxError::InputCountMismatch { expected, got }).text() == w[0] + decimal(
                expected as int,
            ) + w[1] + decimal(got as int),
        forall|expected: usize, got: usize| #[trigger]
            (LayerNormError::InputCountMismatch { expected, got }).text() == w[2] + decimal(
                expected as int,
            ) + w[3] + decimal(got as int),
        forall|expected: usize, got: usize| #[trigger]
            (RmsNormError::InputCountMismatch { expected, got }).text() == w[4] + decimal(
                expected as int,
            ) + w[5] + decimal(got as int),
        forall|expected: usize, got: usize| #[trigger]
            (PatchEmbedError::PatchLengthMismatch { expected, got }).text() == w[6] + decimal(
                expected as int,
            ) + w[7] + decimal(got as int),
        forall|expected: usize, got: usize| #[trigger]
            (PatchEmbedError::WeightCountMismatch { expected, got }).text() == w[8] + decimal(
                expected as int,
            ) + w[9] + decimal(got as int),
        forall|dim: usize, expected: usize, got: usize| #[trigger]
            (PatchEmbedError::WeightLengthMismatch { dim, expected, got }).text() == w[10]
                + decimal(dim as int) + w[11] + decimal(expected as int) + w[12] + decimal(
                got as int,
            ),
        forall|expected: usize, got_a: usize, got_b: usize| #[trigger]
            (DotProductError::LengthMismatch { expected, got_a, got_b }).text() == w[13] + decimal(
                expected as int,
            ) + w[14] + decimal(got_a as int) + w[15] + decimal(got_b as int),
{
    [
        "softmax expects "@,
        " inputs (K), got "@,
        "layer norm expects "@,
        " inputs (k), got "@,
        "rms norm expects "@,
        " inputs (k), got "@,
        "patch embed expects a patch of length "@,
        ", got "@,
        "patch embed expects "@,
        " weight columns (embed_dim), got "@,
        "patch embed weight column "@,
        " expects length "@,
        ", got "@,
        "dot product expects vectors of length "@,
        ", got a.len()="@,
        ", b.len()="@,
    ]
}

/// The messages of an embedding: the count of rows or of a row's columns that was expected, then
/// the one that there is; the index, then the size of the table.
pub proof fn lemma_embed_messages() -> (w: [Seq<char>; 7])
    ensures
        forall|expected: usize, got: usize| #[trigger]
            (EmbedLookupError::TableRowCountMismatch { expected, got }).text() == w[0] + decimal(
                expected as int,
            ) + w[1] + decimal(got as int),
        forall|row: usize, expected: usize, got: usize| #[trigger]
            (EmbedLookupError::TableRowLengthMismatch { row, expected, got }).text() == w[2]
                + decimal(row as int) + w[3] + decimal(expected as int) + w[4] + decimal(
                got as int,
            ),
        forall|index: usize, table_size: usize| #[trigger]
            (EmbedLookupError::IndexOutOfRange { index, table_size }).text() == w[5] + decimal(
                index as int,
            ) + w[6] + decimal(table_size as int),
{
    [
        "embedding table expects "@,
        " rows (table_size), got "@,
        "embedding table row "@,
        " expects "@,
        " columns (embed_dim), got "@,
        "embed lookup index "@,
        " is out of range for table_size "@,
    ]
}

/// A lookup's message names the input, and a division's the divisor, with its sign.
pub proof fn lemma_input_messages() -> (w: [Seq<char>; 4])
    ensures
        forall|x: I18| #[trigger]
            LookupError::InputNotInDomain(x).text() == w[0] + signed_decimal(x@) + w[1],
        forall|divisor: i64| #[trigger]
            (DivError::NonPositiveDivisor { divisor }).text() == w[2] + signed_decimal(
                divisor as int,
            ) + w[3],
{
    [
        "input with raw value "@,
        " is not a point of the lookup domain"@,
        "divisor "@,
        " is not strictly positive"@,
    ]
}

/// The assembler's messages name the sizes of an error in the order of its fields.
pub proof fn lemma_assembler_messages() -> (w: [Seq<char>; 20])
    ensures
        forall|k: usize| #[trigger]
            (AssemblerError::UnconfiguredDotK { k }).text() == w[0] + decimal(k as int),
        forall|kind: &'static str, index: usize| #[trigger]
            (AssemblerError::RegisterIndexOutOfRange { kind, index }).text() == kind@ + w[1]
                + decimal(index as int) + w[2],
        forall|expected: usize, got: usize| #[trigger]
            (AssemblerError::DotGeneralInputCount { expected, got }).text() == w[3] + decimal(
                expected as int,
            ) + w[4] + decimal(got as int),
        forall|expected_a: usize, got_a: usize, expected_b: usize, got_b: usize| #[trigger]
            (AssemblerError::DotGeneralShapeMismatch { expected_a, got_a, expected_b, got_b })
                .text() == w[5] + decimal(expected_a as int) + w[6] + decimal(got_a as int) + w[7]
                + decimal(expected_b as int) + w[8] + decimal(got_b as int) + w[9],
        forall|expected: usize, got: usize| #[trigger]
            (AssemblerError::EltwiseInputCount { expected, got }).text() == w[10] + decimal(
                expected as int,
            ) + w[11] + decimal(got as int),
        forall|a_len: usize, b_len: usize| #[trigger]
            (AssemblerError::EltwiseLengthMismatch { a_len, b_len }).text() == w[12] + decimal(
                a_len as int,
            ) + w[13] + decimal(b_len as int),
        forall|expected: usize, got: usize| #[trigger]
            (AssemblerError::RmsNormInputCount { expected, got }).text() == w[14] + decimal(
                expected as int,
            ) + w[11] + decimal(got as int),
        forall|dim: usize, got_x: usize, got_weight: usize| #[trigger]
            (AssemblerError::RmsNormShapeMismatch { dim, got_x, got_weight }).text() == w[15]
                + decimal(dim as int) + w[16] + decimal(got_x as int) + w[17] + decimal(
                got_weight as int,
            ),
        forall|dim: usize, epsilon_milli: u64| #[trigger]
            (AssemblerError::UnconfiguredRmsNorm { dim, epsilon_milli }).text() == w[18] + decimal(
                dim as int,
            ) + w[19] + decimal(epsilon_milli as int),
{
    [
        "no DotProductChip was configured for k="@,
        " register index "@,
        " is out of range"@,
        "DotGeneral expects "@,
        " inputs, got "@,
        "DotGeneral input shape mismatch: expected a.len()="@,
        " (got "@,
        "), b.len()="@,
        " (got "@,
        ")"@,
        "Eltwise expects "@,
        " inputs, got "@,
        "Eltwise operands are not broadcast-compatible: a.len()="@,
        ", b.len()="@,
        "RmsNorm expects "@,
        "RmsNorm input shape mismatch: dim="@,
        ", got x.len()="@,
        ", weight.len()="@,
        "no RmsNormConfig was configured for dim="@,
        ", epsilon_milli="@,
    ]
}

/// An error that comes from another says so and repeats the other's message.
pub proof fn lemma_nested_messages() -> (w: [Seq<char>; 9])
    ensures
        forall|e: LookupError| #[trigger] SoftmaxError::Lookup(e).text() == w[0] + e.text(),
        forall|e: DivError| #[trigger] SoftmaxError::Div(e).text() == w[1] + e.text(),
        forall|e: LookupError| #[trigger] LayerNormError::Rsqrt(e).text() == w[2] + e.text(),
        forall|e: LookupError| #[trigger] RmsNormError::Rsqrt(e).text() == w[3] + e.text(),
        forall|e: RmsNormError| #[trigger] AssemblerError::RmsNorm(e).text() == w[4] + e.text(),
        forall|dim: usize, source: DotProductError| #[trigger]
            (PatchEmbedError::DotProduct { dim, source }).text() == w[5] + decimal(dim as int)
                + w[6] + source.text(),
        forall|dim: usize, source: LookupError| #[trigger]
            (EmbedLookupError::Lookup { dim, source }).text() == w[7] + decimal(dim as int) + w[8]
                + source.text(),
{
    [
        "softmax exp lookup failed: "@,
        "softmax division failed: "@,
        "layer norm rsqrt lookup failed: "@,
        "rms norm rsqrt lookup failed: "@,
        "assembler rms norm error: "@,
        "patch embed dot product for dim "@,
        " failed: "@,
        "embed lookup dimension "@,
        " failed: "@,
    ]
}

/// An unsupported instruction is named with its parameters in their order.
pub proof fn lemma_unsupported_names() -> (w: [Seq<char>; 13])
    ensures
        forall|axis_dim: usize| #[trigger]
            unsupported_name(Instruction::Softmax { axis_dim }) == w[0] + decimal(axis_dim as int)
                + w[1],
        forall|dim: usize, epsilon_milli: u64| #[trigger]
            unsupported_name(Instruction::LayerNorm { dim, epsilon_milli }) == w[2] + decimal(
                dim as int,
            ) + w[3] + decimal(epsilon_milli as int) + w[4],
        forall|axis: usize| #[trigger]
            unsupported_name(Instruction::Reduce { op: ReduceOp::Sum, axis }) == w[5] + "Sum"@
                + w[6] + decimal(axis as int) + w[7],
        forall|axis: usize| #[trigger]
            unsupported_name(Instruction::Reduce { op: ReduceOp::Mean, axis }) == w[5] + "Mean"@
                + w[6] + decimal(axis as int) + w[7],
        forall|table_size: usize, embed_dim: usize| #[trigger]
            unsupported_name(Instruction::EmbedLookup { table_size, embed_dim }) == w[8] + decimal(
                table_size as int,
            ) + w[9] + decimal(embed_dim as int) + w[10],
        forall|patch_len: usize, embed_dim: usize| #[trigger]
            unsupported_name(Instruction::PatchEmbed { patch_len, embed_dim }) == w[11] + decimal(
                patch_len as int,
            ) + w[12] + decimal(embed_dim as int) + w[10],
        unsupported_name(Instruction::Gelu) == "Gelu"@,
        unsupported_name(Instruction::Eltwise { op: EltwiseOp::Relu })
            == "Eltwise { op: Relu }"@,
{
    [
        "Softmax { axis_dim: "@,
        " }"@,
        "LayerNorm { dim: "@,
        ", epsilon_milli: "@,
        " }"@,
        "Reduce { op: "@,
        ", axis: "@,
        " }"@,
        "EmbedLookup { table_size: "@,
        ", embed_dim: "@,
        " }"@,
        "PatchEmbed { patch_len: "@,
        ", embed_dim: "@,
    ]
}

/// The text of a commitment's error is its name, with both lengths where they differ: the one that
/// was expected first.
pub proof fn lemma_commitment_messages() -> (w: [Seq<char>; 3])
    ensures
        BoundaryCommitmentError::EmptyTensor.text() == "EmptyTensor"@,
        BoundaryCommitmentError::TooManyElements.text() == "TooManyElements"@,
        BoundaryCommitmentError::TooManyIdentities.text() == "TooManyIdentities"@,
        BoundaryCommitmentError::InvalidIdentity.text() == "InvalidIdentity"@,
        BoundaryCommitmentError::NonCanonicalIdentities.text() == "NonCanonicalIdentities"@,
        forall|expected: usize, actual: usize| #[trigger]
            (BoundaryCommitmentError::LengthMismatch { expected, actual }).text() == w[0]
                + decimal(expected as int) + w[1] + decimal(actual as int) + w[2],
{
    ["LengthMismatch { expected: "@, ", actual: "@, " }"@]
}

} // verus!
