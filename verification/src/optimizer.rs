//! Choice of parameter-update rule.

use vstd::prelude::*;

verus! {

/// Which update rule the optimizer applies: plain gradient descent or the
/// adaptive-moment variant.
#[derive(Clone, Copy, PartialEq, Eq, Structural, Debug)]
pub enum OptimizerType {
    SGD,
    Adam,
}

} // verus!
