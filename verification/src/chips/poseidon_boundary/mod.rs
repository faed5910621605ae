//! Commitments to boundary tensors: a descriptor's fields and the tensor's values, folded by the
//! two-input Poseidon hash of the BN254 scalar field.
pub mod chip;
pub mod commit;
pub mod descriptor;
pub mod hash;
pub mod identity;
pub mod laws;
pub mod round;

pub use chip::{PoseidonBoundaryChip, PoseidonBoundaryConfig};
pub use descriptor::{
    strictly_sorted, valid_id, BoundaryCommitmentError, BoundaryDType, BoundaryDescriptor,
    BoundaryRole, BoundaryShape, BOUNDARY_COMMITMENT_SCHEMA_VERSION, MAX_BOUNDARY_ELEMENTS,
    MAX_BOUNDARY_IDENTITIES, MAX_BOUNDARY_ID_BYTES,
};
pub use hash::{commit_boundary_native, poseidon_compress_native};
