//! The schedule of a solve, as mathematics.
//!
//! A solve of an `n`-by-`n` system is a walk through [`Position`]s. Each position stands for
//! one elementary [`Operation`] on the matrix, the right-hand side and one scalar register,
//! the weight; [`next`] says which position follows, and [`operation`] says what the driver
//! is asked to do there. The only thing the walk ever learns about the numbers is whether a
//! probed entry is usable as a pivot.
//!
//! The entry in column `x` of row `y` lives at the flat index `x + y * n`.

use vstd::prelude::*;
use crate::error::SolveError;

verus! {

/// The operation most recently handed out, by its place in the algorithm.
///
/// `pivot` is the column being eliminated or substituted, which is also the index of its
/// pivot row. A `column` runs over the entries of a row and then, with the value `n`, names
/// the row's right-hand side.
pub enum Position {
    /// The entry in column `pivot` of row `row` was sent to the guard.
    Probed { pivot: nat, row: nat },
    /// Row `donor` is being subtracted from row `pivot`, to repair the pivot.
    Merged { pivot: nat, donor: nat, column: nat },
    /// The weight of row `row` against the pivot row was taken.
    Weighed { pivot: nat, row: nat },
    /// The weighted pivot row is being subtracted from row `row`.
    Reduced { pivot: nat, row: nat, column: nat },
    /// Row `pivot` was divided by its diagonal entry.
    Normalised { pivot: nat },
    /// The entry in column `pivot` of row `row`, above the diagonal, was cleared.
    Substituted { pivot: nat, row: nat },
    /// No solve is under way: none was begun, or the last one ran to its end.
    Idle,
    /// The last solve met a column without a usable pivot.
    Failed,
}

/// One elementary step for the driver. `a` is the matrix, `b` the right-hand side, both as
/// flat buffers, and `weight` the driver's scalar register.
pub enum Operation {
    /// Compare `a[entry]` with the edges of the pivot band and report the reading.
    Probe { entry: nat },
    /// `a[dst] -= a[src]`
    SubtractEntry { dst: nat, src: nat },
    /// `b[dst] -= b[src]`
    SubtractRhs { dst: nat, src: nat },
    /// `weight = a[numerator] / a[pivot]`
    Weigh { numerator: nat, pivot: nat },
    /// `a[dst] -= a[src] * weight`
    ReduceEntry { dst: nat, src: nat },
    /// `b[dst] -= b[src] * weight`
    ReduceRhs { dst: nat, src: nat },
    /// `b[row] /= a[diagonal]`, then `a[diagonal] = 1`
    Normalise { diagonal: nat, row: nat },
    /// `b[dst] -= a[entry] * b[src]`, then `a[entry] = 0`
    Substitute { entry: nat, dst: nat, src: nat },
    /// Nothing is left to do; `outcome` is the result of the solve.
    Stop { outcome: Result<(), SolveError> },
}

/// A solver as the contracts see it: the dimension, the skip threshold of the current solve,
/// and the position reached.
pub struct Progress {
    pub n: nat,
    pub skip: nat,
    pub position: Position,
}

/// The flat index of the entry in column `column` of row `row`.
pub open spec fn entry(n: nat, column: nat, row: nat) -> nat {
    column + row * n
}

/// The first row that column `pivot` is eliminated from: the row below the diagonal, or the
/// skip threshold where that lies further down.
pub open spec fn first_row(skip: nat, pivot: nat) -> nat {
    if skip > pivot + 1 {
        skip
    } else {
        pivot + 1
    }
}

/// Where back substitution begins: at the last row, if there is one.
pub open spec fn back_start(n: nat) -> Position {
    if n > 0 {
        Position::Normalised { pivot: (n - 1) as nat }
    } else {
        Position::Idle
    }
}

/// Where the work on column `pivot` begins. Forward elimination probes the diagonal of every
/// column but the last; beyond them back substitution takes over.
pub open spec fn column_start(n: nat, pivot: nat) -> Position {
    if pivot + 1 < n {
        Position::Probed { pivot, row: pivot }
    } else {
        back_start(n)
    }
}

/// Where the work goes once the pivot of column `pivot` is settled: to the first row to be
/// reduced, or on to the next column if the skip threshold leaves none.
pub open spec fn rows_start(n: nat, skip: nat, pivot: nat) -> Position {
    if first_row(skip, pivot) < n {
        Position::Weighed { pivot, row: first_row(skip, pivot) }
    } else {
        column_start(n, pivot + 1)
    }
}

/// What follows the probe of row `row` in column `pivot`.
///
/// A usable diagonal is taken as it is. A usable entry further down has its row subtracted
/// from the pivot row. After an unusable entry the search moves one row down, and fails
/// when no row is left.
pub open spec fn after_probe(n: nat, skip: nat, pivot: nat, row: nat, usable: bool) -> Position {
    if usable {
        if row == pivot {
            rows_start(n, skip, pivot)
        } else {
            Position::Merged { pivot, donor: row, column: 0 }
        }
    } else if row + 1 < n {
        Position::Probed { pivot, row: row + 1 }
    } else {
        Position::Failed
    }
}

/// What follows one step of the subtraction of row `donor` from row `pivot`: the next column,
/// then the right-hand side, then the rows to be reduced.
pub open spec fn after_merge(n: nat, skip: nat, pivot: nat, donor: nat, column: nat) -> Position {
    if column < n {
        Position::Merged { pivot, donor, column: column + 1 }
    } else {
        rows_start(n, skip, pivot)
    }
}

/// What follows one step of the reduction of row `row`: the next column, then the right-hand
/// side, then the next row, then the next column of the matrix.
pub open spec fn after_reduce(n: nat, pivot: nat, row: nat, column: nat) -> Position {
    if column < n {
        Position::Reduced { pivot, row, column: column + 1 }
    } else if row + 1 < n {
        Position::Weighed { pivot, row: row + 1 }
    } else {
        column_start(n, pivot + 1)
    }
}

/// What follows the normalisation of row `pivot`: the rows above it, from the top.
pub open spec fn after_normalise(pivot: nat) -> Position {
    if pivot > 0 {
        Position::Substituted { pivot, row: 0 }
    } else {
        Position::Idle
    }
}

/// What follows the clearing of row `row` in column `pivot`: the next row above the
/// diagonal, then the column to the left.
pub open spec fn after_substitute(pivot: nat, row: nat) -> Position {
    if row + 1 < pivot {
        Position::Substituted { pivot, row: row + 1 }
    } else {
        Position::Normalised { pivot: (pivot - 1) as nat }
    }
}

/// The position that follows `position`. `usable` is the guard's verdict on the last reading
/// and matters after a probe only. `Idle` and `Failed` are final.
pub open spec fn next(n: nat, skip: nat, position: Position, usable: bool) -> Position {
    match position {
        Position::Probed { pivot, row } => after_probe(n, skip, pivot, row, usable),
        Position::Merged { pivot, donor, column } => after_merge(n, skip, pivot, donor, column),
        Position::Weighed { pivot, row } => Position::Reduced { pivot, row, column: 0 },
        Position::Reduced { pivot, row, column } => after_reduce(n, pivot, row, column),
        Position::Normalised { pivot } => after_normalise(pivot),
        Position::Substituted { pivot, row } => after_substitute(pivot, row),
        Position::Idle => Position::Idle,
        Position::Failed => Position::Failed,
    }
}

/// The operation that stands at `position`.
pub open spec fn operation(n: nat, position: Position) -> Operation {
    match position {
        Position::Probed { pivot, row } => Operation::Probe { entry: entry(n, pivot, row) },
        Position::Merged { pivot, donor, column } => if column < n {
            Operation::SubtractEntry { dst: entry(n, column, pivot), src: entry(n, column, donor) }
        } else {
            Operation::SubtractRhs { dst: pivot, src: donor }
        },
        Position::Weighed { pivot, row } => Operation::Weigh {
            numerator: entry(n, pivot, row),
            pivot: entry(n, pivot, pivot),
        },
        Position::Reduced { pivot, row, column } => if column < n {
            Operation::ReduceEntry { dst: entry(n, column, row), src: entry(n, column, pivot) }
        } else {
            Operation::ReduceRhs { dst: row, src: pivot }
        },
        Position::Normalised { pivot } => Operation::Normalise {
            diagonal: entry(n, pivot, pivot),
            row: pivot,
        },
        Position::Substituted { pivot, row } => Operation::Substitute {
            entry: entry(n, pivot, row),
            dst: row,
            src: pivot,
        },
        Position::Idle => Operation::Stop { outcome: Ok(()) },
        Position::Failed => Operation::Stop { outcome: Err(SolveError::UnsolvableSystem) },
    }
}

/// The first position of a solve.
pub open spec fn start(n: nat) -> Position {
    column_start(n, 0)
}

/// The positions that a solve of dimension `n` with threshold `skip` can stand at.
pub open spec fn valid(n: nat, skip: nat, position: Position) -> bool {
    match position {
        Position::Probed { pivot, row } => pivot + 1 < n && pivot <= row < n,
        Position::Merged { pivot, donor, column } => {
            pivot + 1 < n && pivot < donor < n && column <= n
        },
        Position::Weighed { pivot, row } => pivot + 1 < n && first_row(skip, pivot) <= row < n,
        Position::Reduced { pivot, row, column } => {
            pivot + 1 < n && first_row(skip, pivot) <= row < n && column <= n
        },
        Position::Normalised { pivot } => pivot < n,
        Position::Substituted { pivot, row } => row < pivot < n,
        Position::Idle => true,
        Position::Failed => true,
    }
}

/// Every index of `op` lies inside its buffer: below `n * n` in the matrix, below `n` in the
/// right-hand side.
pub open spec fn in_bounds(n: nat, op: Operation) -> bool {
    match op {
        Operation::Probe { entry } => entry < n * n,
        Operation::SubtractEntry { dst, src } => dst < n * n && src < n * n,
        Operation::SubtractRhs { dst, src } => dst < n && src < n,
        Operation::Weigh { numerator, pivot } => numerator < n * n && pivot < n * n,
        Operation::ReduceEntry { dst, src } => dst < n * n && src < n * n,
        Operation::ReduceRhs { dst, src } => dst < n && src < n,
        Operation::Normalise { diagonal, row } => diagonal < n * n && row < n,
        Operation::Substitute { entry, dst, src } => entry < n * n && dst < n && src < n,
        Operation::Stop { outcome } => true,
    }
}

/// An entry of the matrix lies inside the matrix, and its index recovers its column and row.
pub proof fn lemma_entry_in_matrix(n: nat, column: nat, row: nat)
    requires
        column < n,
        row < n,
    ensures
        entry(n, column, row) < n * n,
        entry(n, column, row) % n == column,
        entry(n, column, row) / n == row,
{
    assert(row * n + n <= n * n) by (nonlinear_arith)
        requires
            row < n,
    ;
    vstd::arithmetic::div_mod::lemma_fundamental_div_mod_converse(
        entry(n, column, row) as int,
        n as int,
        row as int,
        column as int,
    );
}

/// The walk never leaves the valid positions.
pub proof fn lemma_next_valid(n: nat, skip: nat, position: Position, usable: bool)
    requires
        valid(n, skip, position),
    ensures
        valid(n, skip, next(n, skip, position, usable)),
{
}

/// A solve starts at a valid position, whatever the dimension and the threshold.
pub proof fn lemma_start_valid(n: nat, skip: nat)
    ensures
        valid(n, skip, start(n)),
{
}

/// At a valid position the driver is only ever sent inside its buffers.
pub proof fn lemma_operation_in_bounds(n: nat, skip: nat, position: Position)
    requires
        valid(n, skip, position),
    ensures
        in_bounds(n, operation(n, position)),
{
    match position {
        Position::Probed { pivot, row } => {
            lemma_entry_in_matrix(n, pivot, row);
        },
        Position::Merged { pivot, donor, column } => {
            if column < n {
                lemma_entry_in_matrix(n, column, pivot);
                lemma_entry_in_matrix(n, column, donor);
            }
        },
        Position::Weighed { pivot, row } => {
            lemma_entry_in_matrix(n, pivot, row);
            lemma_entry_in_matrix(n, pivot, pivot);
        },
        Position::Reduced { pivot, row, column } => {
            if column < n {
                lemma_entry_in_matrix(n, column, row);
                lemma_entry_in_matrix(n, column, pivot);
            }
        },
        Position::Normalised { pivot } => {
            lemma_entry_in_matrix(n, pivot, pivot);
        },
        Position::Substituted { pivot, row } => {
            lemma_entry_in_matrix(n, pivot, row);
        },
        Position::Idle => {},
        Position::Failed => {},
    }
}

} // verus!
