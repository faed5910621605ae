//! Lays whole programs out: every instruction in its chip, every operand linked to the cell of
//! the register it is read from.
pub mod chip;
pub mod config;
pub mod dot;
pub mod eltwise;
pub mod error;
pub mod laws;
pub mod range;
pub mod registers;
pub mod rms_norm;
pub mod semantics;
pub mod step_laws;

pub use chip::AssemblerChip;
pub use config::{AssemblerConfig, RmsNormEntry, RmsNormParams};
pub use error::AssemblerError;
pub use registers::{AssignedRegisters, RegisterCells};
pub use semantics::{AssemblerInstruction, AssemblerProgram, RegisterRef};
