//! The chips.
pub mod bridge;
pub mod div;
pub mod dot_general;
pub mod eltwise;
pub mod embed_lookup;
pub mod gelu;
pub mod laws;
pub mod layer_norm;
pub mod lookup;
pub mod lookup_range_check;
pub mod offset;
pub mod patch_embed;
pub mod poseidon_boundary;
pub mod proved_laws;
pub mod range_check;
pub mod reduce;
pub mod rms_norm;
pub mod softmax;
