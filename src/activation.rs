//! The activation applied after each layer.

use vstd::prelude::*;

verus! {

#[derive(Clone, Copy, Debug, PartialEq, Eq, Structural)]
pub enum Activation {
    Linear,
    Sigmoid,
    ReLU,
    Softmax,
}

impl Activation {
    /// The activation used on a lone scalar: softmax has no meaning outside a
    /// vector and falls back to the sigmoid; the others stay as they are.
    pub fn scalar_form(&self) -> (r: Activation)
        ensures
            r == (if *self == Activation::Softmax {
                Activation::Sigmoid
            } else {
                *self
            }),
    {
        match self {
            Activation::Softmax => Activation::Sigmoid,
            other => *other,
        }
    }
}

} // verus!
