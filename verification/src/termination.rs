//! Every solve stops: a bound on the operations still to come that falls with each step.

use vstd::prelude::*;
use crate::schedule::{back_start, column_start, first_row, next, rows_start, start, valid, Position};

verus! {

/// The operations that reduce one row: the weight, `n` entries and the right-hand side.
pub open spec fn row_cost(n: nat) -> nat {
    n + 2
}

/// A bound on the operations that eliminate one column: at most `n` probes, the `n + 1`
/// steps of one repair, and at most `n` reduced rows.
pub open spec fn column_cost(n: nat) -> nat {
    n + (n + 1) + n * row_cost(n)
}

/// A bound on the operations of back substitution, the final stop included: no row asks for
/// more than `n`.
pub open spec fn back_cost(n: nat) -> nat {
    n * n + 1
}

/// A bound on the operations that follow the last operation of column `pivot`: the columns
/// to its right that are still to be eliminated, and back substitution.
pub open spec fn cost_after_column(n: nat, pivot: nat) -> nat {
    ((n - 2 - pivot) as nat) * column_cost(n) + back_cost(n)
}

/// A bound on the operations that follow `position`, the final stop included. It is `0`
/// exactly where the solve has stopped.
pub open spec fn remaining(n: nat, position: Position) -> nat {
    match position {
        Position::Probed { pivot, row } => {
            ((n - 1 - row) as nat) + (n + 1) + n * row_cost(n) + cost_after_column(n, pivot)
        },
        Position::Merged { pivot, donor, column } => {
            ((n - column) as nat) + n * row_cost(n) + cost_after_column(n, pivot)
        },
        Position::Weighed { pivot, row } => {
            (n + 1) + ((n - 1 - row) as nat) * row_cost(n) + cost_after_column(n, pivot)
        },
        Position::Reduced { pivot, row, column } => {
            ((n - column) as nat) + ((n - 1 - row) as nat) * row_cost(n) + cost_after_column(
                n,
                pivot,
            )
        },
        Position::Normalised { pivot } => pivot + pivot * n + 1,
        Position::Substituted { pivot, row } => ((pivot - 1 - row) as nat) + pivot * n + 1,
        Position::Idle => 0,
        Position::Failed => 0,
    }
}

/// A bound on the operations of a whole solve, the first one and the final stop included.
pub open spec fn solve_cost(n: nat) -> nat {
    n * column_cost(n) + back_cost(n)
}

/// One more row costs one more `row_cost`.
proof fn lemma_rows_cost(n: nat, rows: nat)
    ensures
        (rows + 1) * row_cost(n) == rows * row_cost(n) + row_cost(n),
        rows <= n ==> rows * row_cost(n) <= n * row_cost(n),
{
    assert((rows + 1) * row_cost(n) == rows * row_cost(n) + row_cost(n)) by (nonlinear_arith);
    assert(rows <= n ==> rows * row_cost(n) <= n * row_cost(n)) by (nonlinear_arith);
}

/// Back substitution, entered from its start, fits its bound.
proof fn lemma_back_start_cost(n: nat)
    ensures
        1 + remaining(n, back_start(n)) <= back_cost(n),
{
    if n > 0 {
        assert((n - 1) + (n - 1) * n + 1 + 1 <= n * n + 1) by (nonlinear_arith)
            requires
                n > 0,
        ;
    }
}

/// The work that begins at the column to the right of `pivot` fits the bound that the
/// positions of column `pivot` reserve for it.
proof fn lemma_column_start_cost(n: nat, pivot: nat)
    requires
        pivot + 1 < n,
    ensures
        1 + remaining(n, column_start(n, pivot + 1)) <= cost_after_column(n, pivot),
{
    let columns = (n - 2 - pivot) as nat;
    if pivot + 2 < n {
        assert(columns * column_cost(n) == (columns - 1) * column_cost(n) + column_cost(n))
            by (nonlinear_arith)
            requires
                columns >= 1,
        ;
        assert(((n - 2 - (pivot + 1)) as nat) == columns - 1);
    } else {
        lemma_back_start_cost(n);
    }
}

/// The rows of column `pivot`, entered from their start, fit the bound of `n` rows.
proof fn lemma_rows_start_cost(n: nat, skip: nat, pivot: nat)
    requires
        pivot + 1 < n,
    ensures
        1 + remaining(n, rows_start(n, skip, pivot)) <= n * row_cost(n) + cost_after_column(
            n,
            pivot,
        ),
{
    let first = first_row(skip, pivot);
    if first < n {
        let rows = (n - 1 - first) as nat;
        lemma_rows_cost(n, rows + 1);
        lemma_rows_cost(n, rows);
    } else {
        lemma_column_start_cost(n, pivot);
        assert(0 <= n * row_cost(n)) by (nonlinear_arith);
    }
}

/// Each step uses up at least one of the operations that `remaining` allows for. With
/// `remaining` at `0` in `Idle` and `Failed` only, a driver that follows the schedule
/// reaches its stop.
pub proof fn lemma_remaining_decreases(n: nat, skip: nat, position: Position, usable: bool)
    requires
        valid(n, skip, position),
        position !is Idle,
        position !is Failed,
    ensures
        remaining(n, next(n, skip, position, usable)) < remaining(n, position),
{
    match position {
        Position::Probed { pivot, row } => {
            if usable && row == pivot {
                lemma_rows_start_cost(n, skip, pivot);
            }
        },
        Position::Merged { pivot, donor, column } => {
            if column >= n {
                lemma_rows_start_cost(n, skip, pivot);
            }
        },
        Position::Weighed { pivot, row } => {},
        Position::Reduced { pivot, row, column } => {
            if column >= n {
                if row + 1 < n {
                    lemma_rows_cost(n, (n - 2 - row) as nat);
                } else {
                    lemma_column_start_cost(n, pivot);
                }
            }
        },
        Position::Normalised { pivot } => {},
        Position::Substituted { pivot, row } => {
            if row + 1 >= pivot {
                assert((pivot - 1) + (pivot - 1) * n + 1 < pivot * n + 1) by (nonlinear_arith)
                    requires
                        0 < pivot < n,
                ;
            }
        },
        Position::Idle => {},
        Position::Failed => {},
    }
}

/// A whole solve fits `solve_cost`, which depends on the dimension alone.
pub proof fn lemma_solve_cost(n: nat)
    ensures
        1 + remaining(n, start(n)) <= solve_cost(n),
{
    if 1 < n {
        assert(((n - 2) as nat) * column_cost(n) + column_cost(n) <= n * column_cost(n))
            by (nonlinear_arith)
            requires
                n >= 2,
        ;
    } else {
        lemma_back_start_cost(n);
        assert(0 <= n * column_cost(n)) by (nonlinear_arith);
    }
}

} // verus!
