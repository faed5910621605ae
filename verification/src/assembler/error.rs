//! The errors of the assembler.
use vstd::prelude::*;
use vstd::string::*;

use crate::chips::rms_norm::RmsNormError;
use crate::fixed_point::FixedPointError;
use crate::text::{decimal, unsigned_text};

verus! {

#[derive(Debug)]
pub enum AssemblerError {
    /// No dot product is configured for an instruction's `k`.
    UnconfiguredDotK { k: usize },
    /// A register reference is past the end of its registers.
    RegisterIndexOutOfRange { kind: &'static str, index: usize },
    /// A `DotGeneral` instruction does not have two inputs.
    DotGeneralInputCount { expected: usize, got: usize },
    /// The inputs of a `DotGeneral` instruction do not have the lengths of its `m`, `n`, `k`.
    DotGeneralShapeMismatch {
        expected_a: usize,
        got_a: usize,
        expected_b: usize,
        got_b: usize,
    },
    /// A `DotGeneral` instruction has batch dimensions.
    DotGeneralBatchDimsUnsupported,
    /// An `Eltwise` instruction does not have two inputs.
    EltwiseInputCount { expected: usize, got: usize },
    /// The lengths of an `Eltwise` instruction's inputs are not broadcast-compatible.
    EltwiseLengthMismatch { a_len: usize, b_len: usize },
    /// No chip takes the instruction.
    UnsupportedInstruction(String),
    /// A fixed-point computation left its range.
    Overflow(String),
    /// Synthesis failed.
    Circuit(String),
    /// An `RmsNorm` instruction does not have two inputs.
    RmsNormInputCount { expected: usize, got: usize },
    /// The inputs of an `RmsNorm` instruction do not have the length `dim`.
    RmsNormShapeMismatch { dim: usize, got_x: usize, got_weight: usize },
    /// No normalization is configured for an instruction's dimension and epsilon.
    UnconfiguredRmsNorm { dim: usize, epsilon_milli: u64 },
    /// The normalization failed.
    RmsNorm(RmsNormError),
}

impl AssemblerError {
    pub open spec fn text(self) -> Seq<char> {
        match self {
            AssemblerError::UnconfiguredDotK { k } => "no DotProductChip was configured for k="@
                + decimal(k as int),
            AssemblerError::RegisterIndexOutOfRange { kind, index } => kind@ + " register index "@
                + decimal(index as int) + " is out of range"@,
            AssemblerError::DotGeneralInputCount { expected, got } => "DotGeneral expects "@
                + decimal(expected as int) + " inputs, got "@ + decimal(got as int),
            AssemblerError::DotGeneralShapeMismatch { expected_a, got_a, expected_b, got_b } =>
                "DotGeneral input shape mismatch: expected a.len()="@ + decimal(expected_a as int)
                + " (got "@ + decimal(got_a as int) + "), b.len()="@ + decimal(expected_b as int)
                + " (got "@ + decimal(got_b as int) + ")"@,
            AssemblerError::DotGeneralBatchDimsUnsupported =>
                "DotGeneral with non-empty batch_dims is not supported by this assembler"@,
            AssemblerError::EltwiseInputCount { expected, got } => "Eltwise expects "@ + decimal(
                expected as int,
            ) + " inputs, got "@ + decimal(got as int),
            AssemblerError::EltwiseLengthMismatch { a_len, b_len } =>
                "Eltwise operands are not broadcast-compatible: a.len()="@ + decimal(a_len as int)
                + ", b.len()="@ + decimal(b_len as int),
            AssemblerError::UnsupportedInstruction(e) => "unsupported instruction: "@ + e@,
            AssemblerError::Overflow(e) => "assembler overflow: "@ + e@,
            AssemblerError::Circuit(e) => "assembler circuit error: "@ + e@,
            AssemblerError::RmsNormInputCount { expected, got } => "RmsNorm expects "@ + decimal(
                expected as int,
            ) + " inputs, got "@ + decimal(got as int),
            AssemblerError::RmsNormShapeMismatch { dim, got_x, got_weight } =>
                "RmsNorm input shape mismatch: dim="@ + decimal(dim as int) + ", got x.len()="@
                + decimal(got_x as int) + ", weight.len()="@ + decimal(got_weight as int),
            AssemblerError::UnconfiguredRmsNorm { dim, epsilon_milli } =>
                "no RmsNormConfig was configured for dim="@ + decimal(dim as int)
                + ", epsilon_milli="@ + decimal(epsilon_milli as int),
            AssemblerError::RmsNorm(e) => "assembler rms norm error: "@ + e.text(),
        }
    }

    /// The text of the error.
    pub fn message(&self) -> (r: String)
        ensures
            r@ == self.text(),
    {
        match self {
            AssemblerError::UnconfiguredDotK { k } => {
                let mut r = String::from_str("no DotProductChip was configured for k=");
                r.append(unsigned_text(*k as u128).as_str());
                r
            },
            AssemblerError::RegisterIndexOutOfRange { kind, index } => {
                let mut r = String::from_str(kind);
                r.append(" register index ");
                r.append(unsigned_text(*index as u128).as_str());
                r.append(" is out of range");
                r
            },
            AssemblerError::DotGeneralInputCount { expected, got } => {
                let mut r = String::from_str("DotGeneral expects ");
                r.append(unsigned_text(*expected as u128).as_str());
                r.append(" inputs, got ");
                r.append(unsigned_text(*got as u128).as_str());
                r
            },
            AssemblerError::DotGeneralShapeMismatch { expected_a, got_a, expected_b, got_b } => {
                let mut r = String::from_str("DotGeneral input shape mismatch: expected a.len()=");
                r.append(unsigned_text(*expected_a as u128).as_str());
                r.append(" (got ");
                r.append(unsigned_text(*got_a as u128).as_str());
                r.append("), b.len()=");
                r.append(unsigned_text(*expected_b as u128).as_str());
                r.append(" (got ");
                r.append(unsigned_text(*got_b as u128).as_str());
                r.append(")");
                r
            },
            AssemblerError::DotGeneralBatchDimsUnsupported => String::from_str(
                "DotGeneral with non-empty batch_dims is not supported by this assembler",
            ),
            AssemblerError::EltwiseInputCount { expected, got } => {
                let mut r = String::from_str("Eltwise expects ");
                r.append(unsigned_text(*expected as u128).as_str());
                r.append(" inputs, got ");
                r.append(unsigned_text(*got as u128).as_str());
                r
            },
            AssemblerError::EltwiseLengthMismatch { a_len, b_len } => {
                let mut r = String::from_str(
                    "Eltwise operands are not broadcast-compatible: a.len()=",
                );
                r.append(unsigned_text(*a_len as u128).as_str());
                r.append(", b.len()=");
                r.append(unsigned_text(*b_len as u128).as_str());
                r
            },
            AssemblerError::UnsupportedInstruction(e) => {
                let mut r = String::from_str("unsupported instruction: ");
                r.append(e.as_str());
                r
            },
            AssemblerError::Overflow(e) => {
                let mut r = String::from_str("assembler overflow: ");
                r.append(e.as_str());
                r
            },
            AssemblerError::Circuit(e) => {
                let mut r = String::from_str("assembler circuit error: ");
                r.append(e.as_str());
                r
            },
            AssemblerError::RmsNormInputCount { expected, got } => {
                let mut r = String::from_str("RmsNorm expects ");
                r.append(unsigned_text(*expected as u128).as_str());
                r.append(" inputs, got ");
                r.append(unsigned_text(*got as u128).as_str());
                r
            },
            AssemblerError::RmsNormShapeMismatch { dim, got_x, got_weight } => {
                let mut r = String::from_str("RmsNorm input shape mismatch: dim=");
                r.append(unsigned_text(*dim as u128).as_str());
                r.append(", got x.len()=");
                r.append(unsigned_text(*got_x as u128).as_str());
                r.append(", weight.len()=");
                r.append(unsigned_text(*got_weight as u128).as_str());
                r
            },
            AssemblerError::UnconfiguredRmsNorm { dim, epsilon_milli } => {
                let mut r = String::from_str("no RmsNormConfig was configured for dim=");
                r.append(unsigned_text(*dim as u128).as_str());
                r.append(", epsilon_milli=");
                r.append(unsigned_text(*epsilon_milli as u128).as_str());
                r
            },
            AssemblerError::RmsNorm(e) => {
                let mut r = String::from_str("assembler rms norm error: ");
                r.append(e.message().as_str());
                r
            },
        }
    }
}

impl From<FixedPointError> for AssemblerError {
    fn from(e: FixedPointError) -> (r: Self) {
        AssemblerError::Overflow(e.0)
    }
}

impl vstd::std_specs::convert::FromSpecImpl<FixedPointError> for AssemblerError {
    open spec fn obeys_from_spec() -> bool {
        true
    }

    open spec fn from_spec(e: FixedPointError) -> AssemblerError {
        AssemblerError::Overflow(e.0)
    }
}

} // verus!
