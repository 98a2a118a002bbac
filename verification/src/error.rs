//! The ways in which a system can be refused.

use vstd::prelude::*;

verus! {

/// Why a system was not solved.
///
/// Neither failure leaves a usable partial result: a shape mismatch is found before any
/// operation is handed out, and after an unsolvable system the row operations already
/// performed are not undone.
#[derive(Clone, Copy, Debug, PartialEq, Eq, Structural)]
pub enum SolveError {
    /// The matrix does not hold exactly as many entries as the square of the vector's length.
    ShapeMismatch,
    /// Some pivot column holds no usable entry from the diagonal downward.
    UnsolvableSystem,
}

} // verus!
