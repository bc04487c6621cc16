pub mod args;
pub mod composite_number;
pub mod magic_hourglass;
pub mod magic_patterns;
pub mod pattern_1;
pub mod patterns_16;
pub mod pythagorean_triples;
pub mod squares;

use vstd::prelude::*;

verus! {

/// The error of the search's kernel (configuration errors are
/// `args::ConfigurationError`).
#[derive(Clone, Copy, Debug, PartialEq, Eq, Structural)]
pub enum MagicError {
    /// A broken invariant, such as a non-Pythagorean prime reaching the kernel.
    Logic,
}

} // verus!
