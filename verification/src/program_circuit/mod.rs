//! A circuit for a whole program, with its public values and the digest of its shape.
pub mod circuit;
pub mod encoding;
pub mod encoding_laws;
pub mod injective;
pub mod laws;
pub mod params;
pub mod public;
pub mod public_cells;
pub mod public_laws;
pub mod synthesis;

pub use circuit::AssemblerCircuit;
pub use encoding::{
    encode_boundary_descriptor, encode_instruction, encode_string, encode_usize, encode_usizes,
};
pub use params::{AssemblerCircuitParams, DomainEntry, RmsNormDomains};
pub use public_cells::AssemblerCircuitConfig;
