//! In-place solution of a dense linear system `A x = b` by Gaussian elimination and back
//! substitution, as a schedule of elementary operations.
//!
//! The matrix is a flat buffer of `n * n` scalars, the entry in column `x` of row `y` at index
//! `x + y * n`; the right-hand side is a buffer of `n` scalars, which the solve overwrites
//! with the solution while it turns the matrix into the identity. The buffers and the
//! arithmetic on them belong to the caller, the driver. This library decides what is done
//! to which entry and in which order, and it is verified to do so as stated:
//!
//! - [`system`] holds the solver, a cursor that hands the driver one operation at a time;
//! - [`pivot`] holds the guard that decides which entries may serve as a pivot;
//! - [`schedule`] states the order of the operations, [`runs`] what that order amounts to
//!   over whole rows and columns, [`termination`] that it comes to an end;
//! - [`semantics`] states what the operations do to the buffers, for any arithmetic.

pub mod error;
pub mod pivot;
pub mod runs;
pub mod schedule;
pub mod semantics;
pub mod system;
pub mod termination;

pub use error::SolveError;
pub use pivot::{Reading, PIVOT_BOUND};
pub use system::{Op, System};
