//! What chips that take one input have in common.
use vstd::prelude::*;

use crate::layout::{Layouter, SynthesisError};

verus! {

/// A chip that lays one input out.
pub trait Chip {
    type Input;

    fn assign(&self, layouter: &mut Layouter, input: Self::Input) -> Result<(), SynthesisError>;
}

} // verus!
