//! Whole stretches of the schedule: where a solve stands after a number of steps.
//!
//! A run is the walk that a sequence of calls to `advance` takes. It is given by the guard's
//! verdicts, one for each call; a verdict counts where the call follows a probe and nowhere
//! else.

use vstd::prelude::*;
use crate::schedule::{
    after_reduce, column_start, first_row, lemma_next_valid, next, rows_start, valid, Position,
};
use crate::termination::{lemma_remaining_decreases, remaining, row_cost};

verus! {

/// The position reached from `position` by one step for each verdict, in their order.
pub open spec fn run(n: nat, skip: nat, position: Position, verdicts: Seq<bool>) -> Position
    decreases verdicts.len(),
{
    if verdicts.len() == 0 {
        position
    } else {
        next(n, skip, run(n, skip, position, verdicts.drop_last()), verdicts.last())
    }
}

/// The solve has stopped, with or without a solution.
pub open spec fn stopped(position: Position) -> bool {
    position is Idle || position is Failed
}

/// The position belongs to back substitution.
pub open spec fn substituting(position: Position) -> bool {
    position is Normalised || position is Substituted
}

/// The number of steps from the normalisation of row `pivot` to the end of the solve: row
/// `pivot` and each row above it is normalised once and has every entry above its diagonal
/// cleared once.
pub open spec fn back_steps(pivot: nat) -> nat
    decreases pivot,
{
    if pivot == 0 {
        1
    } else {
        pivot + 1 + back_steps((pivot - 1) as nat)
    }
}

/// A run never leaves the valid positions.
pub proof fn lemma_run_valid(n: nat, skip: nat, position: Position, verdicts: Seq<bool>)
    requires
        valid(n, skip, position),
    ensures
        valid(n, skip, run(n, skip, position, verdicts)),
    decreases verdicts.len(),
{
    if verdicts.len() > 0 {
        lemma_run_valid(n, skip, position, verdicts.drop_last());
        lemma_next_valid(
            n,
            skip,
            run(n, skip, position, verdicts.drop_last()),
            verdicts.last(),
        );
    }
}

/// A run can be taken in two parts.
pub proof fn lemma_run_split(
    n: nat,
    skip: nat,
    position: Position,
    first: Seq<bool>,
    second: Seq<bool>,
)
    ensures
        run(n, skip, position, first + second) == run(
            n,
            skip,
            run(n, skip, position, first),
            second,
        ),
    decreases second.len(),
{
    if second.len() == 0 {
        assert(first + second =~= first);
    } else {
        assert((first + second).drop_last() =~= first + second.drop_last());
        assert((first + second).last() == second.last());
        lemma_run_split(n, skip, position, first, second.drop_last());
    }
}

/// Every solve stops: a run of at least `remaining` steps ends in `Idle` or in `Failed`,
/// whatever the guard said on the way.
pub proof fn lemma_run_stops(n: nat, skip: nat, position: Position, verdicts: Seq<bool>)
    requires
        valid(n, skip, position),
        verdicts.len() >= remaining(n, position),
    ensures
        stopped(run(n, skip, position, verdicts)),
{
    lemma_run_uses_up(n, skip, position, verdicts);
}

/// A run that has not stopped has used up one of the remaining operations at each step.
proof fn lemma_run_uses_up(n: nat, skip: nat, position: Position, verdicts: Seq<bool>)
    requires
        valid(n, skip, position),
    ensures
        stopped(run(n, skip, position, verdicts)) || remaining(
            n,
            run(n, skip, position, verdicts),
        ) + verdicts.len() <= remaining(n, position),
    decreases verdicts.len(),
{
    if verdicts.len() > 0 {
        let before = run(n, skip, position, verdicts.drop_last());
        lemma_run_uses_up(n, skip, position, verdicts.drop_last());
        lemma_run_valid(n, skip, position, verdicts.drop_last());
        if !stopped(before) {
            lemma_remaining_decreases(n, skip, before, verdicts.last());
        }
    }
}

/// Once stopped, a solve stays where it is.
pub proof fn lemma_stop_is_final(n: nat, skip: nat, position: Position, verdicts: Seq<bool>)
    requires
        stopped(position),
    ensures
        run(n, skip, position, verdicts) == position,
    decreases verdicts.len(),
{
    if verdicts.len() > 0 {
        lemma_stop_is_final(n, skip, position, verdicts.drop_last());
    }
}

/// Elimination is complete before back substitution begins: from a position of back
/// substitution a run leads only to further such positions and to `Idle`. In particular
/// back substitution probes nothing and cannot fail.
pub proof fn lemma_back_substitution_is_last(
    n: nat,
    skip: nat,
    position: Position,
    verdicts: Seq<bool>,
)
    requires
        substituting(position) || position is Idle,
    ensures
        substituting(run(n, skip, position, verdicts)) || run(n, skip, position, verdicts) is Idle,
    decreases verdicts.len(),
{
    if verdicts.len() > 0 {
        lemma_back_substitution_is_last(n, skip, position, verdicts.drop_last());
    }
}

/// The search for a pivot: after `verdicts.len()` unusable entries, from the diagonal
/// downward, the next row is probed; when the column is exhausted the solve fails.
pub proof fn lemma_search_run(n: nat, skip: nat, pivot: nat, verdicts: Seq<bool>)
    requires
        pivot + 1 < n,
        pivot + verdicts.len() <= n,
        forall|i: int| 0 <= i < verdicts.len() ==> !verdicts[i],
    ensures
        run(n, skip, Position::Probed { pivot, row: pivot }, verdicts) == if pivot
            + verdicts.len() < n {
            Position::Probed { pivot, row: pivot + verdicts.len() }
        } else {
            Position::Failed
        },
    decreases verdicts.len(),
{
    if verdicts.len() > 0 {
        lemma_search_run(n, skip, pivot, verdicts.drop_last());
    }
}

/// A solve fails in one way only: the guard turns down the entry in the last row of a
/// column.
pub proof fn lemma_failure_is_exhaustion(n: nat, skip: nat, position: Position, usable: bool)
    requires
        valid(n, skip, position),
        position !is Failed,
    ensures
        next(n, skip, position, usable) is Failed <==> (position matches Position::Probed {
            pivot,
            row,
        } && row + 1 == n && !usable),
{
}

/// The plain subtraction of row `donor` from row `pivot` visits the columns in order, then
/// the right-hand side, and then passes on to the rows to be reduced.
pub proof fn lemma_merge_run(n: nat, skip: nat, pivot: nat, donor: nat, verdicts: Seq<bool>)
    requires
        verdicts.len() <= n + 1,
    ensures
        run(n, skip, Position::Merged { pivot, donor, column: 0 }, verdicts) == if verdicts.len()
            <= n {
            Position::Merged { pivot, donor, column: verdicts.len() }
        } else {
            rows_start(n, skip, pivot)
        },
    decreases verdicts.len(),
{
    if verdicts.len() > 0 {
        lemma_merge_run(n, skip, pivot, donor, verdicts.drop_last());
    }
}

/// The weighted subtraction of row `pivot` from row `row` takes the weight, visits the
/// columns in order, then the right-hand side, and then passes on to the next row or, after
/// the last row, to the next column.
pub proof fn lemma_reduce_run(n: nat, skip: nat, pivot: nat, row: nat, verdicts: Seq<bool>)
    requires
        verdicts.len() <= row_cost(n),
    ensures
        run(n, skip, Position::Weighed { pivot, row }, verdicts) == if verdicts.len() == 0 {
            Position::Weighed { pivot, row }
        } else if verdicts.len() <= n + 1 {
            Position::Reduced { pivot, row, column: (verdicts.len() - 1) as nat }
        } else {
            after_reduce(n, pivot, row, n)
        },
    decreases verdicts.len(),
{
    if verdicts.len() > 0 {
        lemma_reduce_run(n, skip, pivot, row, verdicts.drop_last());
    }
}

/// The rows of a column are reduced one after the other, each in `row_cost` steps; after the
/// last row the next column begins.
pub proof fn lemma_rows_run(
    n: nat,
    skip: nat,
    pivot: nat,
    row: nat,
    rows: nat,
    verdicts: Seq<bool>,
)
    requires
        row < n,
        row + rows <= n,
        verdicts.len() == rows * row_cost(n),
    ensures
        run(n, skip, Position::Weighed { pivot, row }, verdicts) == if row + rows < n {
            Position::Weighed { pivot, row: row + rows }
        } else {
            column_start(n, pivot + 1)
        },
    decreases rows,
{
    if rows == 0 {
        assert(verdicts.len() == 0) by (nonlinear_arith)
            requires
                verdicts.len() == rows * row_cost(n),
                rows == 0,
        ;
    } else {
        let done = ((rows - 1) * row_cost(n)) as nat;
        assert(rows * row_cost(n) == (rows - 1) * row_cost(n) + row_cost(n)) by (nonlinear_arith);
        assert(0 <= (rows - 1) * row_cost(n)) by (nonlinear_arith)
            requires
                rows >= 1,
        ;
        let first = verdicts.subrange(0, done as int);
        let second = verdicts.subrange(done as int, verdicts.len() as int);
        assert(verdicts =~= first + second);
        lemma_rows_run(n, skip, pivot, row, (rows - 1) as nat, first);
        lemma_run_split(n, skip, Position::Weighed { pivot, row }, first, second);
        lemma_reduce_run(n, skip, pivot, (row + rows - 1) as nat, second);
    }
}

/// Back substitution on column `pivot`: the row is normalised, then the entries above the
/// diagonal are cleared from the top row down, and then the column to the left follows; after
/// the first column the solve is complete.
pub proof fn lemma_substitute_run(n: nat, skip: nat, pivot: nat, verdicts: Seq<bool>)
    requires
        verdicts.len() <= pivot + 1,
    ensures
        run(n, skip, Position::Normalised { pivot }, verdicts) == if verdicts.len() == 0 {
            Position::Normalised { pivot }
        } else if verdicts.len() <= pivot {
            Position::Substituted { pivot, row: (verdicts.len() - 1) as nat }
        } else if pivot > 0 {
            Position::Normalised { pivot: (pivot - 1) as nat }
        } else {
            Position::Idle
        },
    decreases verdicts.len(),
{
    if verdicts.len() > 0 {
        lemma_substitute_run(n, skip, pivot, verdicts.drop_last());
    }
}

/// Back substitution always succeeds, and in a number of steps that the dimension fixes:
/// from the normalisation of row `pivot` the solve is complete after exactly
/// `back_steps(pivot)` steps.
pub proof fn lemma_back_substitution_run(n: nat, skip: nat, pivot: nat, verdicts: Seq<bool>)
    requires
        verdicts.len() == back_steps(pivot),
    ensures
        run(n, skip, Position::Normalised { pivot }, verdicts) is Idle,
    decreases pivot,
{
    let first = verdicts.subrange(0, pivot as int + 1);
    let second = verdicts.subrange(pivot as int + 1, verdicts.len() as int);
    assert(verdicts =~= first + second);
    lemma_run_split(n, skip, Position::Normalised { pivot }, first, second);
    lemma_substitute_run(n, skip, pivot, first);
    if pivot > 0 {
        lemma_back_substitution_run(n, skip, (pivot - 1) as nat, second);
    } else {
        lemma_stop_is_final(n, skip, Position::Idle, second);
    }
}

/// A usable diagonal is taken as it is: the rows of the column follow at once, and no row
/// is subtracted from the pivot row.
pub proof fn lemma_usable_diagonal_is_kept(n: nat, skip: nat, pivot: nat)
    ensures
        next(n, skip, Position::Probed { pivot, row: pivot }, true) == rows_start(n, skip, pivot),
{
}

/// Pivot repair: where the diagonal of column `pivot` and the `unusable - 1` entries below
/// it are unusable and the entry after them is usable, the row of that entry, and no other,
/// is subtracted from the pivot row, over all columns and the right-hand side, before the
/// rows of the column are reduced.
///
/// `verdicts` holds the `unusable` refusals, the acceptance, and one verdict more for each
/// step of the subtraction taken so far.
pub proof fn lemma_repair_run(n: nat, skip: nat, pivot: nat, unusable: nat, verdicts: Seq<bool>)
    requires
        pivot + 1 < n,
        0 < unusable,
        pivot + unusable < n,
        unusable < verdicts.len() <= unusable + n + 2,
        forall|i: int| 0 <= i < unusable ==> !verdicts[i],
        verdicts[unusable as int],
    ensures
        run(n, skip, Position::Probed { pivot, row: pivot }, verdicts) == if verdicts.len()
            <= unusable + n + 1 {
            Position::Merged {
                pivot,
                donor: pivot + unusable,
                column: (verdicts.len() - unusable - 1) as nat,
            }
        } else {
            rows_start(n, skip, pivot)
        },
{
    let search = verdicts.subrange(0, unusable as int);
    let found = verdicts.subrange(unusable as int, unusable as int + 1);
    let merge = verdicts.subrange(unusable as int + 1, verdicts.len() as int);
    let probed = Position::Probed { pivot, row: pivot };
    assert(verdicts =~= (search + found) + merge);
    lemma_run_split(n, skip, probed, search + found, merge);
    lemma_run_split(n, skip, probed, search, found);
    lemma_search_run(n, skip, pivot, search);
    assert(found.drop_last() =~= Seq::<bool>::empty());
    assert(found.last() == verdicts[unusable as int]);
    assert(run(n, skip, run(n, skip, probed, search), found.drop_last()) == run(
        n,
        skip,
        probed,
        search,
    ));
    lemma_merge_run(n, skip, pivot, pivot + unusable, merge);
}

/// The threshold changes one thing only, the row at which the reduction of a column begins.
/// Every step that does not enter the rows of a column is the same step for every
/// threshold.
pub proof fn lemma_skip_changes_first_row_only(
    n: nat,
    skip: nat,
    position: Position,
    usable: bool,
)
    requires
        !(position matches Position::Probed { pivot, row } && row == pivot && usable),
        !(position matches Position::Merged { column, .. } && column >= n),
    ensures
        next(n, skip, position, usable) == next(n, 0, position, usable),
{
}

/// With the threshold `skip`, the rows of a column begin where the run without a threshold
/// arrives after it has reduced the rows above the threshold. So a threshold leaves out
/// the reduction of the rows above it and changes nothing else: not the column that is
/// pivoted on, not the repair of its pivot, not the reduction of the rows further down.
pub proof fn lemma_skip_leaves_out_rows(n: nat, skip: nat, pivot: nat, verdicts: Seq<bool>)
    requires
        pivot + 1 < n,
        verdicts.len() == (if first_row(skip, pivot) < n {
            first_row(skip, pivot) - (pivot + 1)
        } else {
            n - (pivot + 1)
        }) * row_cost(n),
    ensures
        run(n, 0, rows_start(n, 0, pivot), verdicts) == rows_start(n, skip, pivot),
{
    let rows = (if first_row(skip, pivot) < n {
        first_row(skip, pivot) - (pivot + 1)
    } else {
        n - (pivot + 1)
    }) as nat;
    lemma_rows_run(n, 0, pivot, pivot + 1, rows, verdicts);
}

} // verus!
