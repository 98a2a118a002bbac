//! What the operations mean, for any arithmetic.
//!
//! The library never computes with the entries of a system; the driver does. This module
//! says what the driver is expected to do with each operation, over an arbitrary scalar type
//! `T` and an arbitrary [`Arithmetic`] on it. Nothing is assumed of the arithmetic: it need
//! not be exact, associative, or free of values that are not numbers. What is proved here
//! therefore holds of any driver that performs the operations as described, rounding
//! included.

use vstd::prelude::*;
use crate::pivot::Reading;
use crate::runs::{lemma_run_stops, run, stopped};
use crate::schedule::{
    after_reduce, column_start, entry, first_row, lemma_entry_in_matrix, lemma_next_valid,
    lemma_operation_in_bounds, lemma_start_valid, next, operation, rows_start, start, valid,
    Operation, Position,
};
use crate::termination::{lemma_solve_cost, row_cost, solve_cost};

verus! {

/// The scalar operations that a driver supplies.
#[verifier::reject_recursive_types(T)]
pub struct Arithmetic<T> {
    /// The value written into a cleared entry.
    pub zero: T,
    /// The value written onto a normalised diagonal.
    pub one: T,
    /// `sub(x, y)` is `x - y`.
    pub sub: spec_fn(T, T) -> T,
    /// `mul(x, y)` is `x * y`.
    pub mul: spec_fn(T, T) -> T,
    /// `div(x, y)` is `x / y`.
    pub div: spec_fn(T, T) -> T,
    /// How a scalar compares with the edges of the pivot band.
    pub reading: spec_fn(T) -> Reading,
}

/// What a driver holds: the matrix `a`, the right-hand side `b`, and the weight register.
pub struct Buffers<T> {
    pub a: Seq<T>,
    pub b: Seq<T>,
    pub weight: T,
}

impl<T> Buffers<T> {
    /// The buffers have the shape of an `n`-by-`n` system.
    pub open spec fn fits(self, n: nat) -> bool {
        self.a.len() == n * n && self.b.len() == n
    }

    /// The entry in column `column` of row `row`.
    pub open spec fn at(self, n: nat, column: nat, row: nat) -> T {
        self.a[entry(n, column, row) as int]
    }
}

/// The buffers after the driver has performed `op` on `buffers`.
pub open spec fn perform<T>(arith: Arithmetic<T>, op: Operation, buffers: Buffers<T>) -> Buffers<
    T,
> {
    let a = buffers.a;
    let b = buffers.b;
    let weight = buffers.weight;
    match op {
        Operation::Probe { entry } => buffers,
        Operation::SubtractEntry { dst, src } => Buffers {
            a: a.update(dst as int, (arith.sub)(a[dst as int], a[src as int])),
            ..buffers
        },
        Operation::SubtractRhs { dst, src } => Buffers {
            b: b.update(dst as int, (arith.sub)(b[dst as int], b[src as int])),
            ..buffers
        },
        Operation::Weigh { numerator, pivot } => Buffers {
            weight: (arith.div)(a[numerator as int], a[pivot as int]),
            ..buffers
        },
        Operation::ReduceEntry { dst, src } => Buffers {
            a: a.update(dst as int, (arith.sub)(a[dst as int], (arith.mul)(a[src as int], weight))),
            ..buffers
        },
        Operation::ReduceRhs { dst, src } => Buffers {
            b: b.update(dst as int, (arith.sub)(b[dst as int], (arith.mul)(b[src as int], weight))),
            ..buffers
        },
        Operation::Normalise { diagonal, row } => Buffers {
            a: a.update(diagonal as int, arith.one),
            b: b.update(row as int, (arith.div)(b[row as int], a[diagonal as int])),
            ..buffers
        },
        Operation::Substitute { entry, dst, src } => Buffers {
            a: a.update(entry as int, arith.zero),
            b: b.update(
                dst as int,
                (arith.sub)(b[dst as int], (arith.mul)(a[entry as int], b[src as int])),
            ),
            ..buffers
        },
        Operation::Stop { outcome } => buffers,
    }
}

/// A solve under way: the operation that is due, and the buffers it is due on.
pub struct Solve<T> {
    pub position: Position,
    pub buffers: Buffers<T>,
}

/// The verdict that the guard gives on the operation due at `position`: that on the probed
/// entry after a probe, and a refusal, which nothing looks at, after anything else.
pub open spec fn verdict<T>(arith: Arithmetic<T>, n: nat, solve: Solve<T>) -> bool {
    match operation(n, solve.position) {
        Operation::Probe { entry } => (arith.reading)(solve.buffers.a[entry as int]).usable(),
        _ => false,
    }
}

/// One turn of the driver: it performs the operation that is due and asks for the next.
pub open spec fn step<T>(arith: Arithmetic<T>, n: nat, skip: nat, solve: Solve<T>) -> Solve<T> {
    Solve {
        position: next(n, skip, solve.position, verdict(arith, n, solve)),
        buffers: perform(arith, operation(n, solve.position), solve.buffers),
    }
}

/// `count` turns of the driver.
pub open spec fn steps<T>(
    arith: Arithmetic<T>,
    n: nat,
    skip: nat,
    solve: Solve<T>,
    count: nat,
) -> Solve<T>
    decreases count,
{
    if count == 0 {
        solve
    } else {
        step(arith, n, skip, steps(arith, n, skip, solve, (count - 1) as nat))
    }
}

/// What is taken away from an entry of the destination row: the entry of the source row,
/// times the weight where there is one.
pub open spec fn subtrahend<T>(arith: Arithmetic<T>, source: T, weight: Option<T>) -> T {
    match weight {
        Some(weight) => (arith.mul)(source, weight),
        None => source,
    }
}

/// `after` is `before` with row `src_row` subtracted from row `dst_row`, in the matrix and
/// in the right-hand side, and with nothing else changed there. With a `weight` the
/// subtraction is the weighted one, of `weight` times the source row; without, the plain
/// one.
pub open spec fn row_subtracted<T>(
    arith: Arithmetic<T>,
    n: nat,
    before: Buffers<T>,
    after: Buffers<T>,
    dst_row: nat,
    src_row: nat,
    weight: Option<T>,
) -> bool {
    &&& after.fits(n)
    &&& forall|column: nat, row: nat|
        column < n && row < n ==> #[trigger] after.at(n, column, row) == if row == dst_row {
            (arith.sub)(
                before.at(n, column, row),
                subtrahend(arith, before.at(n, column, src_row), weight),
            )
        } else {
            before.at(n, column, row)
        }
    &&& forall|row: int|
        0 <= row < n ==> #[trigger] after.b[row] == if row == dst_row {
            (arith.sub)(before.b[row], subtrahend(arith, before.b[src_row as int], weight))
        } else {
            before.b[row]
        }
}

/// Two entries with one index are one entry.
pub proof fn lemma_entry_injective(n: nat, column: nat, row: nat, other_column: nat, other_row: nat)
    requires
        column < n,
        row < n,
        other_column < n,
        other_row < n,
        entry(n, column, row) == entry(n, other_column, other_row),
    ensures
        column == other_column,
        row == other_row,
{
    lemma_entry_in_matrix(n, column, row);
    lemma_entry_in_matrix(n, other_column, other_row);
}

/// `after` is `before` with row `src_row` subtracted from row `dst_row` in the first
/// `columns` columns of the matrix, and with nothing else changed.
spec fn row_partly_subtracted<T>(
    arith: Arithmetic<T>,
    n: nat,
    before: Buffers<T>,
    after: Buffers<T>,
    dst_row: nat,
    src_row: nat,
    weight: Option<T>,
    columns: nat,
) -> bool {
    &&& after.fits(n)
    &&& after.b == before.b
    &&& after.weight == before.weight
    &&& forall|column: nat, row: nat|
        column < n && row < n ==> #[trigger] after.at(n, column, row) == if row == dst_row
            && column < columns {
            (arith.sub)(
                before.at(n, column, row),
                subtrahend(arith, before.at(n, column, src_row), weight),
            )
        } else {
            before.at(n, column, row)
        }
}

/// The subtraction reaches one column more when one entry of the destination row is
/// replaced by its difference with the entry of the source row.
proof fn lemma_next_column<T>(
    arith: Arithmetic<T>,
    n: nat,
    before: Buffers<T>,
    partly: Buffers<T>,
    dst_row: nat,
    src_row: nat,
    weight: Option<T>,
    column: nat,
)
    requires
        before.fits(n),
        row_partly_subtracted(arith, n, before, partly, dst_row, src_row, weight, column),
        column < n,
        dst_row < n,
        src_row < n,
        dst_row != src_row,
    ensures
        row_partly_subtracted(
            arith,
            n,
            before,
            Buffers {
                a: partly.a.update(
                    entry(n, column, dst_row) as int,
                    (arith.sub)(
                        partly.at(n, column, dst_row),
                        subtrahend(arith, partly.at(n, column, src_row), weight),
                    ),
                ),
                ..partly
            },
            dst_row,
            src_row,
            weight,
            column + 1,
        ),
{
    let further = Buffers {
        a: partly.a.update(
            entry(n, column, dst_row) as int,
            (arith.sub)(
                partly.at(n, column, dst_row),
                subtrahend(arith, partly.at(n, column, src_row), weight),
            ),
        ),
        ..partly
    };
    lemma_entry_in_matrix(n, column, dst_row);
    assert(partly.at(n, column, dst_row) == before.at(n, column, dst_row));
    assert(partly.at(n, column, src_row) == before.at(n, column, src_row));
    assert forall|c: nat, r: nat| c < n && r < n implies #[trigger] further.at(n, c, r) == if r
        == dst_row && c < column + 1 {
        (arith.sub)(before.at(n, c, r), subtrahend(arith, before.at(n, c, src_row), weight))
    } else {
        before.at(n, c, r)
    } by {
        lemma_entry_in_matrix(n, c, r);
        if entry(n, c, r) == entry(n, column, dst_row) {
            lemma_entry_injective(n, c, r, column, dst_row);
        } else {
            assert(further.at(n, c, r) == partly.at(n, c, r));
        }
    }
}

/// The end of a subtraction: with every column done, the step on the right-hand side
/// completes the row.
proof fn lemma_last_column<T>(
    arith: Arithmetic<T>,
    n: nat,
    before: Buffers<T>,
    partly: Buffers<T>,
    dst_row: nat,
    src_row: nat,
    weight: Option<T>,
)
    requires
        before.fits(n),
        row_partly_subtracted(arith, n, before, partly, dst_row, src_row, weight, n),
        dst_row < n,
        src_row < n,
        dst_row != src_row,
    ensures
        row_subtracted(
            arith,
            n,
            before,
            Buffers {
                b: partly.b.update(
                    dst_row as int,
                    (arith.sub)(
                        partly.b[dst_row as int],
                        subtrahend(arith, partly.b[src_row as int], weight),
                    ),
                ),
                ..partly
            },
            dst_row,
            src_row,
            weight,
        ),
{
    let done = Buffers {
        b: partly.b.update(
            dst_row as int,
            (arith.sub)(
                partly.b[dst_row as int],
                subtrahend(arith, partly.b[src_row as int], weight),
            ),
        ),
        ..partly
    };
    assert forall|c: nat, r: nat| c < n && r < n implies #[trigger] done.at(n, c, r) == if r
        == dst_row {
        (arith.sub)(before.at(n, c, r), subtrahend(arith, before.at(n, c, src_row), weight))
    } else {
        before.at(n, c, r)
    } by {
        assert(done.at(n, c, r) == partly.at(n, c, r));
    }
}

/// The repair of a pivot, step by step: after `columns` steps the plain subtraction of row
/// `donor` from row `pivot` has reached column `columns`.
proof fn lemma_merge_columns<T>(
    arith: Arithmetic<T>,
    n: nat,
    skip: nat,
    pivot: nat,
    donor: nat,
    before: Buffers<T>,
    columns: nat,
)
    requires
        before.fits(n),
        pivot < donor < n,
        columns <= n,
    ensures
        steps(
            arith,
            n,
            skip,
            Solve { position: Position::Merged { pivot, donor, column: 0 }, buffers: before },
            columns,
        ).position == (Position::Merged { pivot, donor, column: columns }),
        row_partly_subtracted(
            arith,
            n,
            before,
            steps(
                arith,
                n,
                skip,
                Solve { position: Position::Merged { pivot, donor, column: 0 }, buffers: before },
                columns,
            ).buffers,
            pivot,
            donor,
            None,
            columns,
        ),
    decreases columns,
{
    if columns > 0 {
        let column = (columns - 1) as nat;
        lemma_merge_columns(arith, n, skip, pivot, donor, before, column);
        let partly = steps(
            arith,
            n,
            skip,
            Solve { position: Position::Merged { pivot, donor, column: 0 }, buffers: before },
            column,
        ).buffers;
        lemma_next_column(arith, n, before, partly, pivot, donor, None, column);
    }
}

/// What the repair of a pivot does: the `n + 1` steps that begin with the first column of
/// the repair subtract row `donor` from row `pivot`, in the matrix and in the right-hand
/// side, leave every other row and the weight as they were, and pass on to the rows to be
/// reduced.
pub proof fn lemma_subtract_rows<T>(
    arith: Arithmetic<T>,
    n: nat,
    skip: nat,
    pivot: nat,
    donor: nat,
    before: Buffers<T>,
)
    requires
        before.fits(n),
        pivot < donor < n,
    ensures
        steps(
            arith,
            n,
            skip,
            Solve { position: Position::Merged { pivot, donor, column: 0 }, buffers: before },
            n + 1,
        ).position == rows_start(n, skip, pivot),
        row_subtracted(
            arith,
            n,
            before,
            steps(
                arith,
                n,
                skip,
                Solve { position: Position::Merged { pivot, donor, column: 0 }, buffers: before },
                n + 1,
            ).buffers,
            pivot,
            donor,
            None,
        ),
        steps(
            arith,
            n,
            skip,
            Solve { position: Position::Merged { pivot, donor, column: 0 }, buffers: before },
            n + 1,
        ).buffers.weight == before.weight,
{
    lemma_merge_columns(arith, n, skip, pivot, donor, before, n);
    let partly = steps(
        arith,
        n,
        skip,
        Solve { position: Position::Merged { pivot, donor, column: 0 }, buffers: before },
        n,
    ).buffers;
    lemma_last_column(arith, n, before, partly, pivot, donor, None);
}

/// The weight of row `row` against the pivot row of column `pivot`: the entry to be
/// eliminated over the pivot.
pub open spec fn weight_of<T>(
    arith: Arithmetic<T>,
    n: nat,
    buffers: Buffers<T>,
    pivot: nat,
    row: nat,
) -> T {
    (arith.div)(buffers.at(n, pivot, row), buffers.at(n, pivot, pivot))
}

/// The reduction of a row, step by step: after the weight has been taken and `columns`
/// further steps, the weighted subtraction of row `pivot` from row `row` has reached column
/// `columns`.
proof fn lemma_reduce_columns<T>(
    arith: Arithmetic<T>,
    n: nat,
    skip: nat,
    pivot: nat,
    row: nat,
    before: Buffers<T>,
    columns: nat,
)
    requires
        before.fits(n),
        pivot < row < n,
        columns <= n,
    ensures
        steps(
            arith,
            n,
            skip,
            Solve { position: Position::Weighed { pivot, row }, buffers: before },
            columns + 1,
        ).position == (Position::Reduced { pivot, row, column: columns }),
        row_partly_subtracted(
            arith,
            n,
            Buffers { weight: weight_of(arith, n, before, pivot, row), ..before },
            steps(
                arith,
                n,
                skip,
                Solve { position: Position::Weighed { pivot, row }, buffers: before },
                columns + 1,
            ).buffers,
            row,
            pivot,
            Some(weight_of(arith, n, before, pivot, row)),
            columns,
        ),
    decreases columns,
{
    let weighed = Solve { position: Position::Weighed { pivot, row }, buffers: before };
    let weight = weight_of(arith, n, before, pivot, row);
    if columns == 0 {
        assert(steps(arith, n, skip, weighed, 0) == weighed);
        assert(steps(arith, n, skip, weighed, 1) == step(arith, n, skip, weighed));
    } else {
        let column = (columns - 1) as nat;
        lemma_reduce_columns(arith, n, skip, pivot, row, before, column);
        let partly = steps(arith, n, skip, weighed, columns).buffers;
        lemma_next_column(
            arith,
            n,
            Buffers { weight, ..before },
            partly,
            row,
            pivot,
            Some(weight),
            column,
        );
    }
}

/// What the reduction of a row does: the `n + 2` steps that begin with the taking of the
/// weight store the weight, subtract the weighted row `pivot` from row `row`, in the matrix
/// and in the right-hand side, leave every other row as it was, and pass on to the next row
/// or, after the last, to the next column.
pub proof fn lemma_weighted_subtraction<T>(
    arith: Arithmetic<T>,
    n: nat,
    skip: nat,
    pivot: nat,
    row: nat,
    before: Buffers<T>,
)
    requires
        before.fits(n),
        pivot < row < n,
    ensures
        steps(
            arith,
            n,
            skip,
            Solve { position: Position::Weighed { pivot, row }, buffers: before },
            n + 2,
        ).position == after_reduce(n, pivot, row, n),
        row_subtracted(
            arith,
            n,
            before,
            steps(
                arith,
                n,
                skip,
                Solve { position: Position::Weighed { pivot, row }, buffers: before },
                n + 2,
            ).buffers,
            row,
            pivot,
            Some(weight_of(arith, n, before, pivot, row)),
        ),
        steps(
            arith,
            n,
            skip,
            Solve { position: Position::Weighed { pivot, row }, buffers: before },
            n + 2,
        ).buffers.weight == weight_of(arith, n, before, pivot, row),
{
    let weighed = Solve { position: Position::Weighed { pivot, row }, buffers: before };
    let weight = weight_of(arith, n, before, pivot, row);
    lemma_reduce_columns(arith, n, skip, pivot, row, before, n);
    let partly = steps(arith, n, skip, weighed, n + 1).buffers;
    lemma_last_column(arith, n, Buffers { weight, ..before }, partly, row, pivot, Some(weight));
}

/// Turns of the driver can be taken in two parts.
pub proof fn lemma_steps_split<T>(
    arith: Arithmetic<T>,
    n: nat,
    skip: nat,
    solve: Solve<T>,
    first: nat,
    second: nat,
)
    ensures
        steps(arith, n, skip, solve, first + second) == steps(
            arith,
            n,
            skip,
            steps(arith, n, skip, solve, first),
            second,
        ),
    decreases second,
{
    if second > 0 {
        lemma_steps_split(arith, n, skip, solve, first, (second - 1) as nat);
    }
}

/// `after` is `before` with column `pivot` eliminated from the `rows` rows that begin with
/// row `first`: each of them has the pivot row subtracted, weighted by its own entry in
/// column `pivot` over the pivot, all taken from `before`. Nothing else is changed in the
/// matrix and the right-hand side.
pub open spec fn column_eliminated<T>(
    arith: Arithmetic<T>,
    n: nat,
    before: Buffers<T>,
    after: Buffers<T>,
    pivot: nat,
    first: nat,
    rows: nat,
) -> bool {
    &&& after.fits(n)
    &&& forall|column: nat, row: nat|
        column < n && row < n ==> #[trigger] after.at(n, column, row) == if first <= row < first
            + rows {
            (arith.sub)(
                before.at(n, column, row),
                (arith.mul)(before.at(n, column, pivot), weight_of(arith, n, before, pivot, row)),
            )
        } else {
            before.at(n, column, row)
        }
    &&& forall|row: int|
        0 <= row < n ==> #[trigger] after.b[row] == if first <= row < first + rows {
            (arith.sub)(
                before.b[row],
                (arith.mul)(before.b[pivot as int], weight_of(arith, n, before, pivot, row as nat)),
            )
        } else {
            before.b[row]
        }
}

/// What forward elimination does with one column once its pivot is settled: the
/// `rows * row_cost(n)` steps that begin with the weight of row `first` eliminate column
/// `pivot` from the rows `first` to `first + rows - 1`, one after the other. The pivot row
/// is not written, so each weight is the one that the buffers held before the first step.
pub proof fn lemma_column_eliminated<T>(
    arith: Arithmetic<T>,
    n: nat,
    skip: nat,
    pivot: nat,
    first: nat,
    rows: nat,
    before: Buffers<T>,
)
    requires
        before.fits(n),
        pivot < first < n,
        first + rows <= n,
    ensures
        steps(
            arith,
            n,
            skip,
            Solve { position: Position::Weighed { pivot, row: first }, buffers: before },
            rows * row_cost(n),
        ).position == if first + rows < n {
            Position::Weighed { pivot, row: first + rows }
        } else {
            column_start(n, pivot + 1)
        },
        column_eliminated(
            arith,
            n,
            before,
            steps(
                arith,
                n,
                skip,
                Solve { position: Position::Weighed { pivot, row: first }, buffers: before },
                rows * row_cost(n),
            ).buffers,
            pivot,
            first,
            rows,
        ),
    decreases rows,
{
    let begun = Solve { position: Position::Weighed { pivot, row: first }, buffers: before };
    if rows == 0 {
        assert(rows * row_cost(n) == 0) by (nonlinear_arith)
            requires
                rows == 0,
        ;
        assert(steps(arith, n, skip, begun, 0) == begun);
    } else {
        let earlier = (rows - 1) as nat;
        let row = first + earlier;
        assert(rows * row_cost(n) == earlier * row_cost(n) + (n + 2)) by (nonlinear_arith)
            requires
                earlier == rows - 1,
                row_cost(n) == n + 2,
        ;
        lemma_column_eliminated(arith, n, skip, pivot, first, earlier, before);
        lemma_steps_split(arith, n, skip, begun, earlier * row_cost(n), n + 2);
        let partly = steps(arith, n, skip, begun, earlier * row_cost(n));
        let after = steps(arith, n, skip, begun, rows * row_cost(n)).buffers;
        lemma_weighted_subtraction(arith, n, skip, pivot, row, partly.buffers);
        assert(partly.buffers.at(n, pivot, row) == before.at(n, pivot, row));
        assert(partly.buffers.at(n, pivot, pivot) == before.at(n, pivot, pivot));
        assert forall|c: nat, r: nat| c < n && r < n implies #[trigger] after.at(n, c, r) == if first
            <= r < first + rows {
            (arith.sub)(
                before.at(n, c, r),
                (arith.mul)(before.at(n, c, pivot), weight_of(arith, n, before, pivot, r)),
            )
        } else {
            before.at(n, c, r)
        } by {
            assert(partly.buffers.at(n, c, r) == if first <= r < first + earlier {
                (arith.sub)(
                    before.at(n, c, r),
                    (arith.mul)(before.at(n, c, pivot), weight_of(arith, n, before, pivot, r)),
                )
            } else {
                before.at(n, c, r)
            });
            assert(partly.buffers.at(n, c, pivot) == before.at(n, c, pivot));
        }
        assert forall|r: int| 0 <= r < n implies #[trigger] after.b[r] == if first <= r < first
            + rows {
            (arith.sub)(
                before.b[r],
                (arith.mul)(before.b[pivot as int], weight_of(arith, n, before, pivot, r as nat)),
            )
        } else {
            before.b[r]
        } by {
            assert(partly.buffers.b[r] == if first <= r < first + earlier {
                (arith.sub)(
                    before.b[r],
                    (arith.mul)(
                        before.b[pivot as int],
                        weight_of(arith, n, before, pivot, r as nat),
                    ),
                )
            } else {
                before.b[r]
            });
            assert(partly.buffers.b[pivot as int] == before.b[pivot as int]);
        }
    }
}

/// Forward elimination on one column, from the settled pivot to the next column: every row
/// from `first_row(skip, pivot)` to the last has the weighted pivot row subtracted, and the
/// rows above the threshold are left as they are.
pub proof fn lemma_gaussian_elimination<T>(
    arith: Arithmetic<T>,
    n: nat,
    skip: nat,
    pivot: nat,
    before: Buffers<T>,
)
    requires
        before.fits(n),
        pivot + 1 < n,
    ensures
        ({
            let first = first_row(skip, pivot);
            let rows = if first < n { (n - first) as nat } else { 0 };
            let after = steps(
                arith,
                n,
                skip,
                Solve { position: rows_start(n, skip, pivot), buffers: before },
                rows * row_cost(n),
            );
            &&& after.position == column_start(n, pivot + 1)
            &&& column_eliminated(arith, n, before, after.buffers, pivot, first, rows)
        }),
{
    let first = first_row(skip, pivot);
    if first < n {
        lemma_column_eliminated(arith, n, skip, pivot, first, (n - first) as nat, before);
    } else {
        assert(0 * row_cost(n) == 0);
        assert(steps(
            arith,
            n,
            skip,
            Solve { position: rows_start(n, skip, pivot), buffers: before },
            0,
        ).buffers == before);
    }
}

/// Where back substitution stands on column `pivot` once `rows` entries above the diagonal
/// are cleared.
pub open spec fn after_rows(pivot: nat, rows: nat) -> Position {
    if rows < pivot {
        Position::Substituted { pivot, row: rows }
    } else if pivot > 0 {
        Position::Normalised { pivot: (pivot - 1) as nat }
    } else {
        Position::Idle
    }
}

/// `after` is `before` with row `pivot` normalised and with column `pivot` cleared in the
/// first `rows` rows: the right-hand side of row `pivot` is divided by the diagonal entry
/// and the diagonal entry set to one; each cleared row has the entry of column `pivot` times
/// the new right-hand side of row `pivot` taken from its right-hand side, and the entry set
/// to zero. Nothing else is changed.
pub open spec fn column_substituted<T>(
    arith: Arithmetic<T>,
    n: nat,
    before: Buffers<T>,
    after: Buffers<T>,
    pivot: nat,
    rows: nat,
) -> bool {
    let solved = (arith.div)(before.b[pivot as int], before.at(n, pivot, pivot));
    &&& after.fits(n)
    &&& after.weight == before.weight
    &&& forall|column: nat, row: nat|
        column < n && row < n ==> #[trigger] after.at(n, column, row) == if column == pivot && row
            == pivot {
            arith.one
        } else if column == pivot && row < rows {
            arith.zero
        } else {
            before.at(n, column, row)
        }
    &&& forall|row: int|
        0 <= row < n ==> #[trigger] after.b[row] == if row == pivot {
            solved
        } else if row < rows {
            (arith.sub)(before.b[row], (arith.mul)(before.at(n, pivot, row as nat), solved))
        } else {
            before.b[row]
        }
}

/// What back substitution does to one column: the step that normalises row `pivot` and the
/// `rows` steps after it, one for each of the first `rows` rows. With `rows == pivot` the
/// column is complete, and the column to the left follows.
pub proof fn lemma_back_substitution<T>(
    arith: Arithmetic<T>,
    n: nat,
    skip: nat,
    pivot: nat,
    before: Buffers<T>,
    rows: nat,
)
    requires
        before.fits(n),
        rows <= pivot < n,
    ensures
        steps(
            arith,
            n,
            skip,
            Solve { position: Position::Normalised { pivot }, buffers: before },
            rows + 1,
        ).position == after_rows(pivot, rows),
        column_substituted(
            arith,
            n,
            before,
            steps(
                arith,
                n,
                skip,
                Solve { position: Position::Normalised { pivot }, buffers: before },
                rows + 1,
            ).buffers,
            pivot,
            rows,
        ),
    decreases rows,
{
    let normalised = Solve { position: Position::Normalised { pivot }, buffers: before };
    let after = steps(arith, n, skip, normalised, rows + 1).buffers;
    lemma_entry_in_matrix(n, pivot, pivot);
    if rows == 0 {
        assert(steps(arith, n, skip, normalised, 0) == normalised);
        assert(steps(arith, n, skip, normalised, 1) == step(arith, n, skip, normalised));
        assert forall|c: nat, r: nat| c < n && r < n implies #[trigger] after.at(n, c, r) == if c
            == pivot && r == pivot {
            arith.one
        } else {
            before.at(n, c, r)
        } by {
            lemma_entry_in_matrix(n, c, r);
            if entry(n, c, r) == entry(n, pivot, pivot) {
                lemma_entry_injective(n, c, r, pivot, pivot);
            }
        }
    } else {
        let row = (rows - 1) as nat;
        lemma_back_substitution(arith, n, skip, pivot, before, row);
        let partly = steps(arith, n, skip, normalised, rows).buffers;
        lemma_entry_in_matrix(n, pivot, row);
        assert(partly.at(n, pivot, row) == before.at(n, pivot, row));
        assert(partly.b[row as int] == before.b[row as int]);
        assert forall|c: nat, r: nat| c < n && r < n implies #[trigger] after.at(n, c, r) == if c
            == pivot && r == pivot {
            arith.one
        } else if c == pivot && r < rows {
            arith.zero
        } else {
            before.at(n, c, r)
        } by {
            lemma_entry_in_matrix(n, c, r);
            if entry(n, c, r) == entry(n, pivot, row) {
                lemma_entry_injective(n, c, r, pivot, row);
            } else {
                assert(after.at(n, c, r) == partly.at(n, c, r));
            }
        }
    }
}

/// The verdicts that the guard gives in the course of `count` turns of the driver.
pub open spec fn verdicts<T>(
    arith: Arithmetic<T>,
    n: nat,
    skip: nat,
    solve: Solve<T>,
    count: nat,
) -> Seq<bool> {
    Seq::new(count, |turn: int| verdict(arith, n, steps(arith, n, skip, solve, turn as nat)))
}

/// The driver walks the schedule: after `count` turns it stands where the run under its
/// verdicts stands.
pub proof fn lemma_steps_run<T>(
    arith: Arithmetic<T>,
    n: nat,
    skip: nat,
    solve: Solve<T>,
    count: nat,
)
    ensures
        steps(arith, n, skip, solve, count).position == run(
            n,
            skip,
            solve.position,
            verdicts(arith, n, skip, solve, count),
        ),
    decreases count,
{
    if count > 0 {
        let earlier = (count - 1) as nat;
        lemma_steps_run(arith, n, skip, solve, earlier);
        assert(verdicts(arith, n, skip, solve, count).drop_last() =~= verdicts(
            arith,
            n,
            skip,
            solve,
            earlier,
        ));
    }
}

/// A whole solve, as the driver performs it: the state after `solve_cost(n)` turns, which
/// are enough for every solve to stop.
pub open spec fn solved<T>(arith: Arithmetic<T>, n: nat, skip: nat, buffers: Buffers<T>) -> Solve<
    T,
> {
    steps(arith, n, skip, Solve { position: start(n), buffers }, solve_cost(n))
}

/// Every solve stops within `solve_cost(n)` turns, whatever the entries and the arithmetic.
pub proof fn lemma_solve_stops<T>(arith: Arithmetic<T>, n: nat, skip: nat, buffers: Buffers<T>)
    ensures
        stopped(solved(arith, n, skip, buffers).position),
{
    let begun = Solve { position: start(n), buffers };
    lemma_steps_run(arith, n, skip, begun, solve_cost(n));
    lemma_start_valid(n, skip);
    lemma_solve_cost(n);
    lemma_run_stops(n, skip, start(n), verdicts(arith, n, skip, begun, solve_cost(n)));
}

/// Column `column` of the matrix is in its final state: one on the diagonal, zero above.
pub open spec fn column_done<T>(
    arith: Arithmetic<T>,
    n: nat,
    buffers: Buffers<T>,
    column: nat,
) -> bool {
    &&& buffers.at(n, column, column) == arith.one
    &&& forall|row: nat| row < column ==> #[trigger] buffers.at(n, column, row) == arith.zero
}

/// What back substitution has achieved when `solve.position` is due: the columns to the
/// right of the current one are done, and the current one as far as it has been cleared.
spec fn columns_done<T>(arith: Arithmetic<T>, n: nat, solve: Solve<T>) -> bool {
    let buffers = solve.buffers;
    match solve.position {
        Position::Normalised { pivot } => forall|column: nat|
            pivot < column < n ==> #[trigger] column_done(arith, n, buffers, column),
        Position::Substituted { pivot, row } => {
            &&& forall|column: nat|
                pivot < column < n ==> #[trigger] column_done(arith, n, buffers, column)
            &&& buffers.at(n, pivot, pivot) == arith.one
            &&& forall|above: nat| above < row ==> #[trigger] buffers.at(n, pivot, above) == arith.zero
        },
        Position::Idle => forall|column: nat|
            column < n ==> #[trigger] column_done(arith, n, buffers, column),
        _ => true,
    }
}

/// A write into column `pivot` leaves the columns to its right as they are.
proof fn lemma_columns_kept<T>(
    arith: Arithmetic<T>,
    n: nat,
    before: Buffers<T>,
    after: Buffers<T>,
    pivot: nat,
    row: nat,
)
    requires
        before.fits(n),
        pivot < n,
        row < n,
        after.a == before.a.update(entry(n, pivot, row) as int, after.at(n, pivot, row)),
        forall|column: nat| pivot < column < n ==> #[trigger] column_done(arith, n, before, column),
    ensures
        forall|column: nat| pivot < column < n ==> #[trigger] column_done(arith, n, after, column),
        forall|above: nat|
            above < n && above != row ==> #[trigger] after.at(n, pivot, above) == before.at(
                n,
                pivot,
                above,
            ),
{
    lemma_entry_in_matrix(n, pivot, row);
    assert forall|column: nat| pivot < column < n implies #[trigger] column_done(
        arith,
        n,
        after,
        column,
    ) by {
        assert(column_done(arith, n, before, column));
        lemma_entry_in_matrix(n, column, column);
        if entry(n, column, column) == entry(n, pivot, row) {
            lemma_entry_injective(n, column, column, pivot, row);
        }
        assert(after.at(n, column, column) == before.at(n, column, column));
        assert forall|above: nat| above < column implies #[trigger] after.at(n, column, above)
            == arith.zero by {
            lemma_entry_in_matrix(n, column, above);
            if entry(n, column, above) == entry(n, pivot, row) {
                lemma_entry_injective(n, column, above, pivot, row);
            }
            assert(after.at(n, column, above) == before.at(n, column, above));
        }
    }
    assert forall|above: nat| above < n && above != row implies #[trigger] after.at(
        n,
        pivot,
        above,
    ) == before.at(n, pivot, above) by {
        lemma_entry_in_matrix(n, pivot, above);
        if entry(n, pivot, above) == entry(n, pivot, row) {
            lemma_entry_injective(n, pivot, above, pivot, row);
        }
    }
}

/// One turn of the driver keeps what back substitution has achieved.
proof fn lemma_columns_done_step<T>(arith: Arithmetic<T>, n: nat, skip: nat, solve: Solve<T>)
    requires
        solve.buffers.fits(n),
        valid(n, skip, solve.position),
        columns_done(arith, n, solve),
    ensures
        step(arith, n, skip, solve).buffers.fits(n),
        columns_done(arith, n, step(arith, n, skip, solve)),
{
    let before = solve.buffers;
    let after = step(arith, n, skip, solve).buffers;
    lemma_operation_in_bounds(n, skip, solve.position);
    match solve.position {
        Position::Probed { pivot, row } => {},
        Position::Merged { pivot, donor, column } => {},
        Position::Weighed { pivot, row } => {},
        Position::Reduced { pivot, row, column } => {},
        Position::Normalised { pivot } => {
            lemma_entry_in_matrix(n, pivot, pivot);
            lemma_columns_kept(arith, n, before, after, pivot, pivot);
            if pivot == 0 {
                assert forall|column: nat| column < n implies #[trigger] column_done(
                    arith,
                    n,
                    after,
                    column,
                ) by {}
            }
        },
        Position::Substituted { pivot, row } => {
            lemma_entry_in_matrix(n, pivot, row);
            lemma_columns_kept(arith, n, before, after, pivot, row);
            if row + 1 >= pivot {
                assert(column_done(arith, n, after, pivot));
                assert forall|column: nat| pivot - 1 < column < n implies #[trigger] column_done(
                    arith,
                    n,
                    after,
                    column,
                ) by {}
            }
        },
        Position::Idle => {},
        Position::Failed => {},
    }
}

/// What back substitution has achieved is kept through the whole of a solve.
proof fn lemma_columns_done_steps<T>(
    arith: Arithmetic<T>,
    n: nat,
    skip: nat,
    buffers: Buffers<T>,
    count: nat,
)
    requires
        buffers.fits(n),
    ensures
        steps(arith, n, skip, Solve { position: start(n), buffers }, count).buffers.fits(n),
        valid(n, skip, steps(arith, n, skip, Solve { position: start(n), buffers }, count).position),
        columns_done(arith, n, steps(arith, n, skip, Solve { position: start(n), buffers }, count)),
    decreases count,
{
    let begun = Solve { position: start(n), buffers };
    lemma_start_valid(n, skip);
    if count > 0 {
        let earlier = (count - 1) as nat;
        lemma_columns_done_steps(arith, n, skip, buffers, earlier);
        let solve = steps(arith, n, skip, begun, earlier);
        lemma_columns_done_step(arith, n, skip, solve);
        lemma_next_valid(n, skip, solve.position, verdict(arith, n, solve));
    }
}

/// The upper half of the result: after a solve that ran to its end, the matrix holds a one
/// in every diagonal entry and a zero in every entry above the diagonal, whatever the
/// arithmetic. (That the entries below the diagonal vanish too is a matter of the
/// arithmetic: elimination computes them, and does not write them.)
pub proof fn lemma_solved_upper_triangle<T>(
    arith: Arithmetic<T>,
    n: nat,
    skip: nat,
    buffers: Buffers<T>,
)
    requires
        buffers.fits(n),
        solved(arith, n, skip, buffers).position is Idle,
    ensures
        solved(arith, n, skip, buffers).buffers.fits(n),
        forall|column: nat|
            column < n ==> #[trigger] column_done(
                arith,
                n,
                solved(arith, n, skip, buffers).buffers,
                column,
            ),
{
    lemma_columns_done_steps(arith, n, skip, buffers, solve_cost(n));
}

/// Once a solve has stopped, further turns of the driver change nothing: `solved` is the
/// state after any number of turns from `solve_cost(n)` on.
pub proof fn lemma_solved_is_final<T>(
    arith: Arithmetic<T>,
    n: nat,
    skip: nat,
    buffers: Buffers<T>,
    count: nat,
)
    requires
        count >= solve_cost(n),
    ensures
        steps(arith, n, skip, Solve { position: start(n), buffers }, count) == solved(
            arith,
            n,
            skip,
            buffers,
        ),
    decreases count,
{
    if count > solve_cost(n) {
        lemma_solved_is_final(arith, n, skip, buffers, (count - 1) as nat);
        lemma_solve_stops(arith, n, skip, buffers);
    }
}

/// The matrix is the identity: one on the diagonal, zero everywhere else.
pub open spec fn is_identity<T>(arith: Arithmetic<T>, n: nat, buffers: Buffers<T>) -> bool {
    forall|column: nat, row: nat|
        column < n && row < n ==> #[trigger] buffers.at(n, column, row) == if column == row {
            arith.one
        } else {
            arith.zero
        }
}

/// In this arithmetic zero and one treat `value` as they treat a number: a product with
/// zero is zero, and to subtract zero or to divide by one changes nothing.
pub open spec fn neutral<T>(arith: Arithmetic<T>, value: T) -> bool {
    &&& (arith.mul)(value, arith.zero) == arith.zero
    &&& (arith.mul)(arith.zero, value) == arith.zero
    &&& (arith.sub)(value, arith.zero) == value
    &&& (arith.div)(value, arith.one) == value
}

/// What a solve of the identity keeps from turn to turn: the buffers, a zero weight while a
/// row is reduced, and a walk that neither repairs a pivot nor fails.
spec fn identity_kept<T>(
    arith: Arithmetic<T>,
    n: nat,
    skip: nat,
    buffers: Buffers<T>,
    solve: Solve<T>,
) -> bool {
    &&& valid(n, skip, solve.position)
    &&& solve.buffers.a == buffers.a
    &&& solve.buffers.b == buffers.b
    &&& match solve.position {
        Position::Probed { pivot, row } => row == pivot,
        Position::Merged { pivot, donor, column } => false,
        Position::Reduced { pivot, row, column } => solve.buffers.weight == arith.zero,
        Position::Failed => false,
        _ => true,
    }
}

/// One turn of the driver on the identity changes nothing.
proof fn lemma_identity_step<T>(
    arith: Arithmetic<T>,
    n: nat,
    skip: nat,
    buffers: Buffers<T>,
    solve: Solve<T>,
)
    requires
        buffers.fits(n),
        is_identity(arith, n, buffers),
        (arith.reading)(arith.one).usable(),
        neutral(arith, arith.zero),
        neutral(arith, arith.one),
        forall|row: int| 0 <= row < n ==> neutral(arith, #[trigger] buffers.b[row]),
        identity_kept(arith, n, skip, buffers, solve),
    ensures
        identity_kept(arith, n, skip, buffers, step(arith, n, skip, solve)),
{
    let after = step(arith, n, skip, solve).buffers;
    lemma_operation_in_bounds(n, skip, solve.position);
    lemma_next_valid(n, skip, solve.position, verdict(arith, n, solve));
    match solve.position {
        Position::Probed { pivot, row } => {
            assert(buffers.at(n, pivot, pivot) == arith.one);
        },
        Position::Merged { pivot, donor, column } => {},
        Position::Weighed { pivot, row } => {
            assert(buffers.at(n, pivot, row) == arith.zero);
            assert(buffers.at(n, pivot, pivot) == arith.one);
        },
        Position::Reduced { pivot, row, column } => {
            if column < n {
                let kept = buffers.at(n, column, row);
                let source = buffers.at(n, column, pivot);
                assert((arith.mul)(source, arith.zero) == arith.zero);
                assert((arith.sub)(kept, arith.zero) == kept);
                assert(after.a =~= buffers.a);
            } else {
                assert(neutral(arith, buffers.b[row as int]));
                assert(neutral(arith, buffers.b[pivot as int]));
                assert(after.b =~= buffers.b);
            }
        },
        Position::Normalised { pivot } => {
            assert(buffers.at(n, pivot, pivot) == arith.one);
            assert(neutral(arith, buffers.b[pivot as int]));
            assert(after.a =~= buffers.a);
            assert(after.b =~= buffers.b);
        },
        Position::Substituted { pivot, row } => {
            assert(buffers.at(n, pivot, row) == arith.zero);
            assert(neutral(arith, buffers.b[row as int]));
            assert(neutral(arith, buffers.b[pivot as int]));
            assert(after.a =~= buffers.a);
            assert(after.b =~= buffers.b);
        },
        Position::Idle => {},
        Position::Failed => {},
    }
}

/// A solve of the identity changes nothing from its first turn to its last.
proof fn lemma_identity_steps<T>(
    arith: Arithmetic<T>,
    n: nat,
    skip: nat,
    buffers: Buffers<T>,
    count: nat,
)
    requires
        buffers.fits(n),
        is_identity(arith, n, buffers),
        (arith.reading)(arith.one).usable(),
        neutral(arith, arith.zero),
        neutral(arith, arith.one),
        forall|row: int| 0 <= row < n ==> neutral(arith, #[trigger] buffers.b[row]),
    ensures
        identity_kept(
            arith,
            n,
            skip,
            buffers,
            steps(arith, n, skip, Solve { position: start(n), buffers }, count),
        ),
    decreases count,
{
    lemma_start_valid(n, skip);
    if count > 0 {
        lemma_identity_steps(arith, n, skip, buffers, (count - 1) as nat);
        lemma_identity_step(
            arith,
            n,
            skip,
            buffers,
            steps(arith, n, skip, Solve { position: start(n), buffers }, (count - 1) as nat),
        );
    }
}

/// A solved system stays solved. Where the matrix is the identity, one is a usable pivot,
/// and zero and one are neutral to each other and to the entries of the right-hand side,
/// a solve runs to its end without a repair and leaves the matrix and the right-hand side
/// exactly as they were, for every threshold.
///
/// The conditions on the arithmetic are needed: in an arithmetic with values that are not
/// numbers, a product with zero need not be zero.
pub proof fn lemma_identity_is_kept<T>(
    arith: Arithmetic<T>,
    n: nat,
    skip: nat,
    buffers: Buffers<T>,
)
    requires
        buffers.fits(n),
        is_identity(arith, n, buffers),
        (arith.reading)(arith.one).usable(),
        neutral(arith, arith.zero),
        neutral(arith, arith.one),
        forall|row: int| 0 <= row < n ==> neutral(arith, #[trigger] buffers.b[row]),
    ensures
        solved(arith, n, skip, buffers).position is Idle,
        solved(arith, n, skip, buffers).buffers.a == buffers.a,
        solved(arith, n, skip, buffers).buffers.b == buffers.b,
{
    lemma_identity_steps(arith, n, skip, buffers, solve_cost(n));
    lemma_solve_stops(arith, n, skip, buffers);
}

} // verus!
