use system_solver::{Op, Reading, SolveError, System, PIVOT_BOUND};

const USABLE: Reading = Reading { below_lower: false, below_upper: true };
const UNUSABLE: Reading = Reading { below_lower: false, below_upper: false };

/// The operations of a solve, the final stop included, under the given readings. Each probe
/// takes the next reading; where they run out, every further entry is usable.
fn operations(n: usize, skip_first_n_rows: usize, readings: &[Reading]) -> Vec<Op> {
    let mut system = System::new(n * n, n).unwrap();
    let mut readings = readings.iter();
    let mut reading = USABLE;
    let mut ops = vec![system.solve(skip_first_n_rows)];
    loop {
        match ops[ops.len() - 1] {
            Op::Stop { .. } => return ops,
            Op::Probe { .. } => reading = *readings.next().unwrap_or(&USABLE),
            _ => {}
        }
        ops.push(system.advance(reading));
    }
}

/// The bound on the operations of a whole solve.
fn solve_cost(n: usize) -> usize {
    n * (n + (n + 1) + n * (n + 2)) + n * n + 1
}

#[test]
fn a_square_shape_is_accepted() {
    for n in 0..20 {
        let system = System::new(n * n, n).unwrap();
        assert_eq!(system.dimension(), n);
    }
}

#[test]
fn any_other_shape_is_refused() {
    assert_eq!(System::new(0, 1).err(), Some(SolveError::ShapeMismatch));
    assert_eq!(System::new(1, 0).err(), Some(SolveError::ShapeMismatch));
    assert_eq!(System::new(2, 2).err(), Some(SolveError::ShapeMismatch));
    assert_eq!(System::new(3, 2).err(), Some(SolveError::ShapeMismatch));
    assert_eq!(System::new(5, 2).err(), Some(SolveError::ShapeMismatch));
    assert_eq!(System::new(80, 9).err(), Some(SolveError::ShapeMismatch));
    assert_eq!(System::new(82, 9).err(), Some(SolveError::ShapeMismatch));
    assert_eq!(System::new(9, 81).err(), Some(SolveError::ShapeMismatch));
}

#[test]
fn a_square_beyond_the_address_space_is_refused() {
    assert_eq!(System::new(0, usize::MAX).err(), Some(SolveError::ShapeMismatch));
    assert_eq!(System::new(1, usize::MAX).err(), Some(SolveError::ShapeMismatch));
    let half = 1usize << (usize::BITS / 2);
    assert_eq!(System::new(0, half).err(), Some(SolveError::ShapeMismatch));
}

#[test]
fn a_new_system_is_idle() {
    let mut system = System::new(4, 2).unwrap();
    assert_eq!(system.advance(USABLE), Op::Stop { outcome: Ok(()) });
    assert_eq!(system.advance(UNUSABLE), Op::Stop { outcome: Ok(()) });
}

#[test]
fn the_guard_lets_pass_what_lies_below_either_edge() {
    assert!(Reading { below_lower: true, below_upper: true }.is_usable());
    assert!(Reading { below_lower: false, below_upper: true }.is_usable());
    assert!(Reading { below_lower: true, below_upper: false }.is_usable());
    assert!(!Reading { below_lower: false, below_upper: false }.is_usable());
}

#[test]
fn the_bound_is_a_double_without_rounding() {
    assert_eq!(PIVOT_BOUND, 100_000_000_000);
    assert_eq!(PIVOT_BOUND as f64, 1e11);
    assert_eq!(PIVOT_BOUND as f64 as u64, PIVOT_BOUND);
}

#[test]
fn an_empty_system_stops_at_once() {
    assert_eq!(operations(0, 0, &[]), [Op::Stop { outcome: Ok(()) }]);
    assert_eq!(operations(0, 3, &[]), [Op::Stop { outcome: Ok(()) }]);
}

#[test]
fn a_single_equation_is_only_normalised() {
    assert_eq!(
        operations(1, 0, &[]),
        [Op::Normalise { diagonal: 0, row: 0 }, Op::Stop { outcome: Ok(()) }]
    );
}

#[test]
fn two_equations_step_by_step() {
    assert_eq!(
        operations(2, 0, &[USABLE]),
        [
            Op::Probe { entry: 0 },
            Op::Weigh { numerator: 2, pivot: 0 },
            Op::ReduceEntry { dst: 2, src: 0 },
            Op::ReduceEntry { dst: 3, src: 1 },
            Op::ReduceRhs { dst: 1, src: 0 },
            Op::Normalise { diagonal: 3, row: 1 },
            Op::Substitute { entry: 1, dst: 0, src: 1 },
            Op::Normalise { diagonal: 0, row: 0 },
            Op::Stop { outcome: Ok(()) },
        ]
    );
}

#[test]
fn three_equations_step_by_step() {
    assert_eq!(
        operations(3, 0, &[]),
        [
            Op::Probe { entry: 0 },
            Op::Weigh { numerator: 3, pivot: 0 },
            Op::ReduceEntry { dst: 3, src: 0 },
            Op::ReduceEntry { dst: 4, src: 1 },
            Op::ReduceEntry { dst: 5, src: 2 },
            Op::ReduceRhs { dst: 1, src: 0 },
            Op::Weigh { numerator: 6, pivot: 0 },
            Op::ReduceEntry { dst: 6, src: 0 },
            Op::ReduceEntry { dst: 7, src: 1 },
            Op::ReduceEntry { dst: 8, src: 2 },
            Op::ReduceRhs { dst: 2, src: 0 },
            Op::Probe { entry: 4 },
            Op::Weigh { numerator: 7, pivot: 4 },
            Op::ReduceEntry { dst: 6, src: 3 },
            Op::ReduceEntry { dst: 7, src: 4 },
            Op::ReduceEntry { dst: 8, src: 5 },
            Op::ReduceRhs { dst: 2, src: 1 },
            Op::Normalise { diagonal: 8, row: 2 },
            Op::Substitute { entry: 2, dst: 0, src: 2 },
            Op::Substitute { entry: 5, dst: 1, src: 2 },
            Op::Normalise { diagonal: 4, row: 1 },
            Op::Substitute { entry: 1, dst: 0, src: 1 },
            Op::Normalise { diagonal: 0, row: 0 },
            Op::Stop { outcome: Ok(()) },
        ]
    );
}

#[test]
fn an_unusable_diagonal_is_repaired_from_the_first_usable_row() {
    assert_eq!(
        operations(3, 0, &[UNUSABLE, UNUSABLE, USABLE, USABLE])[..8],
        [
            Op::Probe { entry: 0 },
            Op::Probe { entry: 3 },
            Op::Probe { entry: 6 },
            Op::SubtractEntry { dst: 0, src: 6 },
            Op::SubtractEntry { dst: 1, src: 7 },
            Op::SubtractEntry { dst: 2, src: 8 },
            Op::SubtractRhs { dst: 0, src: 2 },
            Op::Weigh { numerator: 3, pivot: 0 },
        ]
    );
    assert_eq!(
        operations(2, 0, &[UNUSABLE, USABLE])[..6],
        [
            Op::Probe { entry: 0 },
            Op::Probe { entry: 2 },
            Op::SubtractEntry { dst: 0, src: 2 },
            Op::SubtractEntry { dst: 1, src: 3 },
            Op::SubtractRhs { dst: 0, src: 1 },
            Op::Weigh { numerator: 2, pivot: 0 },
        ]
    );
}

#[test]
fn a_column_without_a_usable_entry_fails() {
    assert_eq!(
        operations(2, 0, &[UNUSABLE, UNUSABLE]),
        [
            Op::Probe { entry: 0 },
            Op::Probe { entry: 2 },
            Op::Stop { outcome: Err(SolveError::UnsolvableSystem) },
        ]
    );
    let ops = operations(3, 0, &[USABLE, UNUSABLE, UNUSABLE]);
    assert_eq!(
        ops[11..],
        [
            Op::Probe { entry: 4 },
            Op::Probe { entry: 7 },
            Op::Stop { outcome: Err(SolveError::UnsolvableSystem) },
        ]
    );
}

#[test]
fn a_failed_solve_stays_failed_until_the_next_solve() {
    let mut system = System::new(4, 2).unwrap();
    assert_eq!(system.solve(0), Op::Probe { entry: 0 });
    assert_eq!(system.advance(UNUSABLE), Op::Probe { entry: 2 });
    let failed = Op::Stop { outcome: Err(SolveError::UnsolvableSystem) };
    assert_eq!(system.advance(UNUSABLE), failed);
    assert_eq!(system.advance(USABLE), failed);
    assert_eq!(system.advance(USABLE), failed);
    assert_eq!(system.solve(0), Op::Probe { entry: 0 });
    assert_eq!(system.advance(USABLE), Op::Weigh { numerator: 2, pivot: 0 });
}

#[test]
fn a_solve_can_be_begun_anew_at_any_point() {
    let mut system = System::new(9, 3).unwrap();
    system.solve(0);
    for _ in 0..7 {
        system.advance(USABLE);
    }
    assert_eq!(system.solve(2), Op::Probe { entry: 0 });
    assert_eq!(system.advance(USABLE), Op::Weigh { numerator: 6, pivot: 0 });
    assert_eq!(system.dimension(), 3);
}

#[test]
fn a_reading_counts_after_a_probe_only() {
    let mut with = System::new(9, 3).unwrap();
    let mut without = System::new(9, 3).unwrap();
    let mut op = with.solve(0);
    assert_eq!(without.solve(0), op);
    loop {
        let probed = matches!(op, Op::Probe { .. });
        op = with.advance(USABLE);
        assert_eq!(without.advance(if probed { USABLE } else { UNUSABLE }), op);
        if let Op::Stop { outcome } = op {
            assert_eq!(outcome, Ok(()));
            break;
        }
    }
}

#[test]
fn the_threshold_leaves_out_the_rows_above_it() {
    assert_eq!(
        operations(3, 2, &[]),
        [
            Op::Probe { entry: 0 },
            Op::Weigh { numerator: 6, pivot: 0 },
            Op::ReduceEntry { dst: 6, src: 0 },
            Op::ReduceEntry { dst: 7, src: 1 },
            Op::ReduceEntry { dst: 8, src: 2 },
            Op::ReduceRhs { dst: 2, src: 0 },
            Op::Probe { entry: 4 },
            Op::Weigh { numerator: 7, pivot: 4 },
            Op::ReduceEntry { dst: 6, src: 3 },
            Op::ReduceEntry { dst: 7, src: 4 },
            Op::ReduceEntry { dst: 8, src: 5 },
            Op::ReduceRhs { dst: 2, src: 1 },
            Op::Normalise { diagonal: 8, row: 2 },
            Op::Substitute { entry: 2, dst: 0, src: 2 },
            Op::Substitute { entry: 5, dst: 1, src: 2 },
            Op::Normalise { diagonal: 4, row: 1 },
            Op::Substitute { entry: 1, dst: 0, src: 1 },
            Op::Normalise { diagonal: 0, row: 0 },
            Op::Stop { outcome: Ok(()) },
        ]
    );
    for n in 0..7 {
        for skip in 0..n + 2 {
            let all = operations(n, 0, &[]);
            let mut kept = Vec::new();
            let mut keep = true;
            for op in all {
                match op {
                    Op::Weigh { numerator, .. } => keep = numerator / n >= skip,
                    Op::ReduceEntry { .. } | Op::ReduceRhs { .. } => {}
                    _ => keep = true,
                }
                if keep {
                    kept.push(op);
                }
            }
            assert_eq!(operations(n, skip, &[]), kept);
        }
    }
}

#[test]
fn a_threshold_beyond_the_last_row_leaves_the_probes_and_back_substitution() {
    for skip in [3, 4, 100, usize::MAX] {
        assert_eq!(
            operations(3, skip, &[]),
            [
                Op::Probe { entry: 0 },
                Op::Probe { entry: 4 },
                Op::Normalise { diagonal: 8, row: 2 },
                Op::Substitute { entry: 2, dst: 0, src: 2 },
                Op::Substitute { entry: 5, dst: 1, src: 2 },
                Op::Normalise { diagonal: 4, row: 1 },
                Op::Substitute { entry: 1, dst: 0, src: 1 },
                Op::Normalise { diagonal: 0, row: 0 },
                Op::Stop { outcome: Ok(()) },
            ]
        );
    }
}

#[test]
fn every_index_lies_inside_its_buffer() {
    for n in 0..8 {
        for skip in 0..n + 1 {
            for unusable in 0..n {
                let readings = vec![UNUSABLE; unusable];
                for op in operations(n, skip, &readings) {
                    let (matrix, vector) = match op {
                        Op::Probe { entry } => (vec![entry], vec![]),
                        Op::SubtractEntry { dst, src } => (vec![dst, src], vec![]),
                        Op::SubtractRhs { dst, src } => (vec![], vec![dst, src]),
                        Op::Weigh { numerator, pivot } => (vec![numerator, pivot], vec![]),
                        Op::ReduceEntry { dst, src } => (vec![dst, src], vec![]),
                        Op::ReduceRhs { dst, src } => (vec![], vec![dst, src]),
                        Op::Normalise { diagonal, row } => (vec![diagonal], vec![row]),
                        Op::Substitute { entry, dst, src } => (vec![entry], vec![dst, src]),
                        Op::Stop { .. } => (vec![], vec![]),
                    };
                    assert!(matrix.iter().all(|&index| index < n * n));
                    assert!(vector.iter().all(|&index| index < n));
                }
            }
        }
    }
}

#[test]
fn a_solve_stays_within_its_bound() {
    assert_eq!(solve_cost(0), 1);
    assert_eq!(solve_cost(1), 8);
    assert_eq!(solve_cost(2), 31);
    assert_eq!(solve_cost(9), 1144);
    for n in 0..8 {
        for skip in 0..n + 1 {
            for unusable in 0..n + 1 {
                let readings = vec![UNUSABLE; unusable];
                assert!(operations(n, skip, &readings).len() <= solve_cost(n));
            }
        }
    }
}

#[test]
fn a_solve_without_repair_has_a_fixed_length() {
    for n in 2..8 {
        let elimination: usize = (0..n - 1).map(|pivot| 1 + (n - 1 - pivot) * (n + 2)).sum();
        let substitution: usize = (0..n).map(|pivot| 1 + pivot).sum();
        assert_eq!(operations(n, 0, &[]).len(), elimination + substitution + 1);
    }
}

#[test]
fn back_substitution_runs_from_the_last_column_to_the_first() {
    let ops = operations(4, 4, &[]);
    let n = 4;
    let mut expected = vec![];
    for pivot in (0..n).rev() {
        expected.push(Op::Normalise { diagonal: pivot + pivot * n, row: pivot });
        for row in 0..pivot {
            expected.push(Op::Substitute { entry: pivot + row * n, dst: row, src: pivot });
        }
    }
    expected.push(Op::Stop { outcome: Ok(()) });
    assert_eq!(ops[3..], expected[..]);
}
