//! The objective minimised in training.

use vstd::prelude::*;

verus! {

/// Mean squared error, or a cross-entropy that treats each output as an
/// independent binary indicator.
#[derive(Clone, Copy, Debug, PartialEq, Eq, Structural)]
pub enum Loss {
    MSE,
    CrossEntropy,
}

} // verus!
