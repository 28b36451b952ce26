//! Optimizer settings kept with a project.

use vstd::prelude::*;

verus! {

/// How hard the optimizer searches.
#[derive(Clone, Copy, Debug, PartialEq, Eq, Structural)]
pub enum OptimizerEffort {
    Fast,
    Balanced,
    Thorough,
}

} // verus!
