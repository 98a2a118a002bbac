//! The solver: a cursor that walks the schedule and hands out one operation at a time.
//!
//! The numbers stay with the driver. A [`System`] knows the shape of the buffers and where
//! the solve stands; [`System::solve`] begins a solve and [`System::advance`] continues it,
//! each returning the next [`Op`] for the driver to perform:
//!
//! 1. `solve(skip_first_n_rows)` returns the first operation.
//! 2. The driver performs it on its buffers. For [`Op::Probe`] it also takes a
//!    [`Reading`] of the probed entry.
//! 3. `advance(reading)` returns the operation that follows, until [`Op::Stop`] carries the
//!    result of the solve.

use vstd::prelude::*;
use crate::error::SolveError;
use crate::pivot::Reading;
use crate::runs::stopped;
use crate::schedule::{
    after_merge, after_normalise, after_probe, after_reduce, after_substitute, column_start,
    entry, in_bounds, lemma_entry_in_matrix, lemma_next_valid, lemma_operation_in_bounds, next,
    operation, rows_start, start, valid, Operation, Position, Progress,
};
use crate::termination::{lemma_remaining_decreases, remaining};

verus! {

/// One elementary step for the driver, with flat indices into its buffers: `a` is the
/// matrix, `b` the right-hand side, `weight` a scalar register that the driver keeps between
/// operations.
#[derive(Clone, Copy, Debug, PartialEq, Eq)]
pub enum Op {
    /// Compare `a[entry]` with the edges of the pivot band; the reading goes into the next
    /// call of [`System::advance`].
    Probe { entry: usize },
    /// `a[dst] -= a[src]`
    SubtractEntry { dst: usize, src: usize },
    /// `b[dst] -= b[src]`
    SubtractRhs { dst: usize, src: usize },
    /// `weight = a[numerator] / a[pivot]`
    Weigh { numerator: usize, pivot: usize },
    /// `a[dst] -= a[src] * weight`
    ReduceEntry { dst: usize, src: usize },
    /// `b[dst] -= b[src] * weight`
    ReduceRhs { dst: usize, src: usize },
    /// `b[row] /= a[diagonal]`, then `a[diagonal] = 1`
    Normalise { diagonal: usize, row: usize },
    /// `b[dst] -= a[entry] * b[src]`, then `a[entry] = 0`
    Substitute { entry: usize, dst: usize, src: usize },
    /// Nothing is left to do; `outcome` is the result of the solve.
    Stop { outcome: Result<(), SolveError> },
}

impl View for Op {
    type V = Operation;

    open spec fn view(&self) -> Operation {
        match *self {
            Op::Probe { entry } => Operation::Probe { entry: entry as nat },
            Op::SubtractEntry { dst, src } => Operation::SubtractEntry {
                dst: dst as nat,
                src: src as nat,
            },
            Op::SubtractRhs { dst, src } => Operation::SubtractRhs {
                dst: dst as nat,
                src: src as nat,
            },
            Op::Weigh { numerator, pivot } => Operation::Weigh {
                numerator: numerator as nat,
                pivot: pivot as nat,
            },
            Op::ReduceEntry { dst, src } => Operation::ReduceEntry {
                dst: dst as nat,
                src: src as nat,
            },
            Op::ReduceRhs { dst, src } => Operation::ReduceRhs { dst: dst as nat, src: src as nat },
            Op::Normalise { diagonal, row } => Operation::Normalise {
                diagonal: diagonal as nat,
                row: row as nat,
            },
            Op::Substitute { entry, dst, src } => Operation::Substitute {
                entry: entry as nat,
                dst: dst as nat,
                src: src as nat,
            },
            Op::Stop { outcome } => Operation::Stop { outcome },
        }
    }
}

/// The position of a solver, in machine integers.
#[derive(Clone, Copy)]
enum Cursor {
    Probed { pivot: usize, row: usize },
    Merged { pivot: usize, donor: usize, column: usize },
    Weighed { pivot: usize, row: usize },
    Reduced { pivot: usize, row: usize, column: usize },
    Normalised { pivot: usize },
    Substituted { pivot: usize, row: usize },
    Idle,
    Failed,
}

impl View for Cursor {
    type V = Position;

    closed spec fn view(&self) -> Position {
        match *self {
            Cursor::Probed { pivot, row } => Position::Probed {
                pivot: pivot as nat,
                row: row as nat,
            },
            Cursor::Merged { pivot, donor, column } => Position::Merged {
                pivot: pivot as nat,
                donor: donor as nat,
                column: column as nat,
            },
            Cursor::Weighed { pivot, row } => Position::Weighed {
                pivot: pivot as nat,
                row: row as nat,
            },
            Cursor::Reduced { pivot, row, column } => Position::Reduced {
                pivot: pivot as nat,
                row: row as nat,
                column: column as nat,
            },
            Cursor::Normalised { pivot } => Position::Normalised { pivot: pivot as nat },
            Cursor::Substituted { pivot, row } => Position::Substituted {
                pivot: pivot as nat,
                row: row as nat,
            },
            Cursor::Idle => Position::Idle,
            Cursor::Failed => Position::Failed,
        }
    }
}

/// A solver for one `n`-by-`n` system: the shape of the driver's buffers and the place that
/// the solve has reached. It holds no numbers and never allocates.
pub struct System {
    n: usize,
    skip: usize,
    cursor: Cursor,
}

impl View for System {
    type V = Progress;

    closed spec fn view(&self) -> Progress {
        Progress { n: self.n as nat, skip: self.skip as nat, position: self.cursor@ }
    }
}

impl System {
    /// The matrix fits the address space, and the cursor stands at a position of the
    /// schedule.
    #[verifier::type_invariant]
    spec fn well_formed(self) -> bool {
        &&& self.n * self.n <= usize::MAX
        &&& valid(self.n as nat, self.skip as nat, self.cursor@)
    }

    /// Binds a solver to a matrix of `matrix_len` entries and a right-hand side of
    /// `vector_len` entries. The matrix must be square with the vector's length as its side;
    /// any other shape is refused, before the driver has been asked to touch a buffer.
    pub fn new(matrix_len: usize, vector_len: usize) -> (made: Result<System, SolveError>)
        ensures
            made is Ok <==> matrix_len == vector_len * vector_len,
            made matches Ok(system) ==> system@ == (Progress {
                n: vector_len as nat,
                skip: 0,
                position: Position::Idle,
            }),
            made matches Err(error) ==> error == SolveError::ShapeMismatch,
    {
        match vector_len.checked_mul(vector_len) {
            Some(square) => {
                if square == matrix_len {
                    Ok(System { n: vector_len, skip: 0, cursor: Cursor::Idle })
                } else {
                    Err(SolveError::ShapeMismatch)
                }
            },
            None => Err(SolveError::ShapeMismatch),
        }
    }

    /// The side of the matrix, which is the length of the right-hand side.
    pub fn dimension(&self) -> (n: usize)
        ensures
            n == self@.n,
    {
        self.n
    }

    /// Begins a solve and returns its first operation.
    ///
    /// Forward elimination leaves the rows above `skip_first_n_rows` as they are, for a
    /// caller that knows them to be eliminated already; `0` skips nothing. A solve that was
    /// under way is abandoned.
    pub fn solve(&mut self, skip_first_n_rows: usize) -> (op: Op)
        ensures
            final(self)@ == (Progress {
                n: old(self)@.n,
                skip: skip_first_n_rows as nat,
                position: start(old(self)@.n),
            }),
            op@ == operation(old(self)@.n, start(old(self)@.n)),
            valid(final(self)@.n, final(self)@.skip, final(self)@.position),
            in_bounds(final(self)@.n, op@),
    {
        proof {
            use_type_invariant(&*self);
        }
        self.cursor = Cursor::Idle;
        self.skip = skip_first_n_rows;
        self.cursor = self.gaussian_elimination(0);
        proof {
            lemma_operation_in_bounds(self.n as nat, self.skip as nat, self.cursor@);
        }
        self.operation()
    }

    /// Continues the solve and returns the operation that follows the last one.
    ///
    /// `reading` describes the entry named by the last operation if that was a
    /// [`Op::Probe`], and is not looked at otherwise. Each call uses up at least one of the
    /// operations that `remaining` allows for, so a driver that calls until it is handed an
    /// [`Op::Stop`] comes to an end. Once a solve has stopped, every further call returns the
    /// same [`Op::Stop`].
    pub fn advance(&mut self, reading: Reading) -> (op: Op)
        ensures
            final(self)@ == (Progress {
                n: old(self)@.n,
                skip: old(self)@.skip,
                position: next(
                    old(self)@.n,
                    old(self)@.skip,
                    old(self)@.position,
                    reading.usable(),
                ),
            }),
            op@ == operation(final(self)@.n, final(self)@.position),
            valid(final(self)@.n, final(self)@.skip, final(self)@.position),
            in_bounds(final(self)@.n, op@),
            !stopped(old(self)@.position) ==> remaining(final(self)@.n, final(self)@.position)
                < remaining(old(self)@.n, old(self)@.position),
    {
        proof {
            use_type_invariant(&*self);
            lemma_next_valid(self.n as nat, self.skip as nat, self.cursor@, reading.usable());
            if !stopped(self.cursor@) {
                lemma_remaining_decreases(
                    self.n as nat,
                    self.skip as nat,
                    self.cursor@,
                    reading.usable(),
                );
            }
        }
        let following: Cursor = match self.cursor {
            Cursor::Probed { pivot, row } => self.gaussian_pivot(pivot, row, reading.is_usable()),
            Cursor::Merged { pivot, donor, column } => self.subtract_rows(pivot, donor, column),
            Cursor::Weighed { pivot, row } => Cursor::Reduced { pivot, row, column: 0 },
            Cursor::Reduced { pivot, row, column } => self.weighted_subtraction(pivot, row, column),
            Cursor::Normalised { pivot } => self.back_substitution(pivot, None),
            Cursor::Substituted { pivot, row } => self.back_substitution(pivot, Some(row)),
            Cursor::Idle => Cursor::Idle,
            Cursor::Failed => Cursor::Failed,
        };
        self.cursor = following;
        proof {
            lemma_operation_in_bounds(self.n as nat, self.skip as nat, self.cursor@);
        }
        self.operation()
    }

    /// Forward elimination, column by column: where the work on column `pivot` begins. Past
    /// the last column but one, back substitution takes over.
    fn gaussian_elimination(&self, pivot: usize) -> (cursor: Cursor)
        requires
            pivot <= self.n,
        ensures
            cursor@ == column_start(self@.n, pivot as nat),
    {
        if pivot < self.n && pivot + 1 < self.n {
            Cursor::Probed { pivot, row: pivot }
        } else if self.n > 0 {
            Cursor::Normalised { pivot: self.n - 1 }
        } else {
            Cursor::Idle
        }
    }

    /// The rows of column `pivot` that take part in the elimination: from the skip threshold
    /// or the row below the diagonal, whichever is lower down, to the last.
    fn eliminated_rows(&self, pivot: usize) -> (cursor: Cursor)
        requires
            pivot + 1 < self.n,
        ensures
            cursor@ == rows_start(self@.n, self@.skip, pivot as nat),
    {
        let first: usize = if self.skip > pivot + 1 {
            self.skip
        } else {
            pivot + 1
        };
        if first < self.n {
            Cursor::Weighed { pivot, row: first }
        } else {
            self.gaussian_elimination(pivot + 1)
        }
    }

    /// Pivot repair: what to do about column `pivot` after the guard has seen the entry in
    /// row `row`.
    fn gaussian_pivot(&self, pivot: usize, row: usize, usable: bool) -> (cursor: Cursor)
        requires
            pivot + 1 < self.n,
            pivot <= row < self.n,
        ensures
            cursor@ == after_probe(self@.n, self@.skip, pivot as nat, row as nat, usable),
    {
        if usable {
            if row == pivot {
                self.eliminated_rows(pivot)
            } else {
                Cursor::Merged { pivot, donor: row, column: 0 }
            }
        } else if row + 1 < self.n {
            Cursor::Probed { pivot, row: row + 1 }
        } else {
            Cursor::Failed
        }
    }

    /// The plain subtraction of row `donor` from row `pivot`, one column after the other and
    /// the right-hand side last.
    fn subtract_rows(&self, pivot: usize, donor: usize, column: usize) -> (cursor: Cursor)
        requires
            pivot + 1 < self.n,
            column <= self.n,
        ensures
            cursor@ == after_merge(
                self@.n,
                self@.skip,
                pivot as nat,
                donor as nat,
                column as nat,
            ),
    {
        if column < self.n {
            Cursor::Merged { pivot, donor, column: column + 1 }
        } else {
            self.eliminated_rows(pivot)
        }
    }

    /// The weighted subtraction of row `pivot` from row `row`, one column after the other and
    /// the right-hand side last; then on to the next row, and after the last row to the next
    /// column.
    fn weighted_subtraction(&self, pivot: usize, row: usize, column: usize) -> (cursor: Cursor)
        requires
            pivot + 1 < self.n,
            row < self.n,
            column <= self.n,
        ensures
            cursor@ == after_reduce(self@.n, pivot as nat, row as nat, column as nat),
    {
        if column < self.n {
            Cursor::Reduced { pivot, row, column: column + 1 }
        } else if row + 1 < self.n {
            Cursor::Weighed { pivot, row: row + 1 }
        } else {
            self.gaussian_elimination(pivot + 1)
        }
    }

    /// Back substitution, from the last column to the first: after the normalisation of row
    /// `pivot` (`cleared` is `None`) the rows above it are cleared from the top; after the
    /// last of them (`cleared` holds the row just done) the column to the left follows.
    fn back_substitution(&self, pivot: usize, cleared: Option<usize>) -> (cursor: Cursor)
        requires
            pivot < self.n,
            cleared matches Some(row) ==> row < pivot,
        ensures
            cursor@ == match cleared {
                None => after_normalise(pivot as nat),
                Some(row) => after_substitute(pivot as nat, row as nat),
            },
    {
        match cleared {
            None => {
                if pivot > 0 {
                    Cursor::Substituted { pivot, row: 0 }
                } else {
                    Cursor::Idle
                }
            },
            Some(row) => {
                if row + 1 < pivot {
                    Cursor::Substituted { pivot, row: row + 1 }
                } else {
                    Cursor::Normalised { pivot: pivot - 1 }
                }
            },
        }
    }

    /// The flat index of the entry in column `column` of row `row`.
    fn entry(&self, column: usize, row: usize) -> (index: usize)
        requires
            column < self.n,
            row < self.n,
        ensures
            index == entry(self@.n, column as nat, row as nat),
            index < self.n * self.n,
    {
        proof {
            use_type_invariant(self);
            lemma_entry_in_matrix(self.n as nat, column as nat, row as nat);
            assert(row * self.n <= column + row * self.n);
        }
        column + row * self.n
    }

    /// The operation that stands at the cursor.
    fn operation(&self) -> (op: Op)
        ensures
            op@ == operation(self@.n, self@.position),
    {
        proof {
            use_type_invariant(self);
        }
        match self.cursor {
            Cursor::Probed { pivot, row } => Op::Probe { entry: self.entry(pivot, row) },
            Cursor::Merged { pivot, donor, column } => {
                if column < self.n {
                    Op::SubtractEntry {
                        dst: self.entry(column, pivot),
                        src: self.entry(column, donor),
                    }
                } else {
                    Op::SubtractRhs { dst: pivot, src: donor }
                }
            },
            Cursor::Weighed { pivot, row } => Op::Weigh {
                numerator: self.entry(pivot, row),
                pivot: self.entry(pivot, pivot),
            },
            Cursor::Reduced { pivot, row, column } => {
                if column < self.n {
                    Op::ReduceEntry { dst: self.entry(column, row), src: self.entry(column, pivot) }
                } else {
                    Op::ReduceRhs { dst: row, src: pivot }
                }
            },
            Cursor::Normalised { pivot } => Op::Normalise {
                diagonal: self.entry(pivot, pivot),
                row: pivot,
            },
            Cursor::Substituted { pivot, row } => Op::Substitute {
                entry: self.entry(pivot, row),
                dst: row,
                src: pivot,
            },
            Cursor::Idle => Op::Stop { outcome: Ok(()) },
            Cursor::Failed => Op::Stop { outcome: Err(SolveError::UnsolvableSystem) },
        }
    }
}

} // verus!
