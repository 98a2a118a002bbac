use system_solver::{Op, Reading, SolveError, System, PIVOT_BOUND};

/// Performs the operations of a solve on the two buffers.
fn run(a: &mut [f64], b: &mut [f64], skip_first_n_rows: usize) -> Result<(), SolveError> {
    let mut system = System::new(a.len(), b.len())?;
    let bound = PIVOT_BOUND as f64;
    let mut weight = 0.;
    let mut reading = Reading { below_lower: false, below_upper: false };
    let mut op = system.solve(skip_first_n_rows);
    loop {
        match op {
            Op::Probe { entry } => {
                reading = Reading { below_lower: a[entry] < -bound, below_upper: bound > a[entry] };
            }
            Op::SubtractEntry { dst, src } => a[dst] -= a[src],
            Op::SubtractRhs { dst, src } => b[dst] -= b[src],
            Op::Weigh { numerator, pivot } => weight = a[numerator] / a[pivot],
            Op::ReduceEntry { dst, src } => a[dst] -= a[src] * weight,
            Op::ReduceRhs { dst, src } => b[dst] -= b[src] * weight,
            Op::Normalise { diagonal, row } => {
                b[row] /= a[diagonal];
                a[diagonal] = 1.;
            }
            Op::Substitute { entry, dst, src } => {
                b[dst] -= a[entry] * b[src];
                a[entry] = 0.;
            }
            Op::Stop { outcome } => return outcome,
        }
        op = system.advance(reading);
    }
}

#[test]
fn solve() {
    let mut a = [
        -1000., 0., 0., 0., 0., -1., 0., 0., 1., 0., -1000., 0., 0., 0., -1., 0., 1., 0., 0.,
        0., -1000., 0., 0., 0., 0., 1., -1., 0., 0., 0., -1000., 0., 0., 1., 0., -1., 0., 0.,
        0., 0., -2000., 0., 1., -1., 0., 0., 0., 0., 0., 0., 1., 0., 0., 0., 0., 0., 0., 0.,
        0., 0., 1., 0., 0., 1., 0., -1., -1., 0., 0., 0., 0., 0., 0., 1., 1., 0., -1., 0., 0.,
        0., 0.,
    ];
    let mut b = [0., 0., 0., 0., 0., 10., 0., 0., 0.];

    assert_eq!(run(&mut a, &mut b, 0), Ok(()));

    assert_eq!(
        a,
        [
            1.0, 0.0, 0.0, 0.0, 0.0, 0.0, 0.0, 0.0, 0.0, 0.0, 1.0, 0.0, 0.0, 0.0, 0.0, 0.0,
            0.0, 0.0, 0.0, 0.0, 1.0, 0.0, 0.0, 0.0, 0.0, 0.0, 0.0, 0.0, 0.0, 0.0, 1.0, 0.0,
            0.0, 0.0, 0.0, 0.0, 0.0, 0.0, 0.0, 0.0, 1.0, 0.0, 0.0, 0.0, 0.0, 0.0, 0.0, 0.0,
            0.0, 0.0, 1.0, 0.0, 0.0, 0.0, 0.0, 0.0, 0.0, 0.0, 0.0, 0.0, 1.0, 0.0, 0.0, 0.0,
            0.0, 0.0, 0.0, 0.0, 0.0, 0.0, 1.0, 0.0, 0.0, 0.0, 0.0, 0.0, 0.0, 0.0, 0.0, 0.0,
            1.0
        ]
    );
    assert_eq!(
        b,
        [
            -0.004615384615384615,
            -0.003846153846153847,
            0.0007692307692307683,
            -0.005384615384615385,
            -0.0030769230769230765,
            10.0,
            0.0,
            6.153846153846153,
            5.384615384615385
        ]
    );
}

#[test]
fn solve_skiping_rows() {
    let mut a = [
        -1000., 0., 0., 0., 0., -1., 0., 0., 1., 0., -1000., 0., 0., 0., -1., 0., 1., 0., 0.,
        0., -1000., 0., 0., 0., 0., 1., -1., 0., 0., 0., -1000., 0., 0., 1., 0., -1., 0., 0.,
        0., 0., -2000., 0., 1., -1., 0., 0., 0., 0., 0., 0., 1., 0., 0., 0., 0., 0., 0., 0.,
        0., 0., 1., 0., 0., 1., 0., -1., -1., 0., 0., 0., 0., 0., 0., 1., 1., 0., -1., 0., 0.,
        0., 0.,
    ];
    let mut b = [0., 0., 0., 0., 0., 10., 0., 0., 0.];

    assert_eq!(run(&mut a, &mut b, 7), Ok(()));

    assert_eq!(
        a,
        [
            1.0, 0.0, 0.0, 0.0, 0.0, 0.0, 0.0, 0.0, 0.0, 0.0, 1.0, 0.0, 0.0, 0.0, 0.0, 0.0,
            0.0, 0.0, 0.0, 0.0, 1.0, 0.0, 0.0, 0.0, 0.0, 0.0, 0.0, 0.0, 0.0, 0.0, 1.0, 0.0,
            0.0, 0.0, 0.0, 0.0, 0.0, 0.0, 0.0, 0.0, 1.0, 0.0, 0.0, 0.0, 0.0, 0.0, 0.0, 0.0,
            0.0, 0.0, 1.0, 0.0, 0.0, 0.0, 0.0, 0.0, 0.0, 0.0, 0.0, 0.0, 1.0, 0.0, 0.0, 0.0,
            0.0, 0.0, 0.0, 0.0, 0.0, 0.0, 1.0, 0.0, 0.0, 0.0, 0.0, 0.0, 0.0, 0.0, 0.0, 0.0,
            1.0
        ]
    );
    assert_eq!(
        b,
        [
            -0.004615384615384615,
            -0.003846153846153847,
            0.0007692307692307683,
            -0.005384615384615385,
            -0.0030769230769230765,
            10.0,
            0.0,
            6.153846153846153,
            5.384615384615385
        ]
    );
}
