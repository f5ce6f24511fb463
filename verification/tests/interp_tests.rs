use rootfind::error::SolverError;
use rootfind::interpolation::{bsearch, eval, eval_deriv, eval_deriv2, eval_deriv2_e, eval_deriv_e, eval_e, eval_integ, eval_integ_e, InterpAccel};

fn grid() -> (Vec<i64>, Vec<i64>) {
    (vec![0, 10, 20, 30], vec![5, 15, 10, 0])
}

#[test]
fn accel_starts_empty() {
    let a = InterpAccel::new();
    assert_eq!(a.cache, 0);
    assert_eq!(a.hit_count, 0);
    assert_eq!(a.miss_count, 0);
}

#[test]
fn bsearch_locates_segments() {
    let xa: Vec<i64> = vec![0, 10, 20, 30];
    assert_eq!(bsearch(&xa, 15, 0, 3), 1);
    assert_eq!(bsearch(&xa, 0, 0, 3), 0);
    assert_eq!(bsearch(&xa, 29, 0, 3), 2);
    // Queries outside the search range clamp to its first or last segment.
    assert_eq!(bsearch(&xa, -5, 0, 3), 0);
    assert_eq!(bsearch(&xa, 30, 0, 3), 2);
    assert_eq!(bsearch(&xa, 99, 0, 3), 2);
}

#[test]
fn eval_at_sample_points_round_trips() {
    // Querying exactly at a sample point returns that sample's value,
    // including at both ends of the grid.
    let (xa, ya) = grid();
    let mut acc = InterpAccel::new();
    for k in 0..xa.len() {
        assert_eq!(eval_e(&xa, &ya, xa[k], &mut acc), Ok(ya[k]));
    }
}

#[test]
fn eval_between_samples_interpolates() {
    let (xa, ya) = grid();
    let mut acc = InterpAccel::new();
    // Halfway up the first segment: 5 + 5*10/10 = 10.
    assert_eq!(eval_e(&xa, &ya, 5, &mut acc), Ok(10));
    // Downhill segment, rounded toward the left sample: 15 - 25/10 -> 13.
    assert_eq!(eval_e(&xa, &ya, 15, &mut acc), Ok(13));
    assert_eq!(eval(&xa, &ya, 15, &mut acc), 13);
}

#[test]
fn eval_outside_range_domain_error() {
    let (xa, ya) = grid();
    let mut acc = InterpAccel::new();
    assert_eq!(eval_e(&xa, &ya, -1, &mut acc), Err(SolverError::DomainError));
    assert_eq!(eval_e(&xa, &ya, 31, &mut acc), Err(SolverError::DomainError));
    // A rejected query leaves the accelerator untouched.
    assert_eq!(acc.hit_count, 0);
    assert_eq!(acc.miss_count, 0);
}

#[test]
fn accel_counts_hits_and_misses() {
    let (xa, ya) = grid();
    let mut acc = InterpAccel::new();
    // First query lands in the cached first segment: a hit.
    eval_e(&xa, &ya, 5, &mut acc).unwrap();
    assert_eq!((acc.hit_count, acc.miss_count), (1, 0));
    // A far query misses and re-caches its segment.
    eval_e(&xa, &ya, 25, &mut acc).unwrap();
    assert_eq!((acc.hit_count, acc.miss_count), (1, 1));
    assert_eq!(acc.cache, 2);
    // Repeating the nearby query now hits.
    eval_e(&xa, &ya, 27, &mut acc).unwrap();
    assert_eq!((acc.hit_count, acc.miss_count), (2, 1));
}

#[test]
fn deriv_reports_segment_slopes() {
    let (xa, ya) = grid();
    let mut acc = InterpAccel::new();
    assert_eq!(eval_deriv_e(&xa, &ya, 5, &mut acc), Ok(1));
    assert_eq!(eval_deriv_e(&xa, &ya, 25, &mut acc), Ok(-1));
    assert_eq!(eval_deriv(&xa, &ya, 5, &mut acc), 1);
    assert_eq!(eval_deriv_e(&xa, &ya, 99, &mut acc), Err(SolverError::DomainError));
}

#[test]
fn deriv2_is_zero_for_linear_interpolant() {
    let (xa, ya) = grid();
    let mut acc = InterpAccel::new();
    assert_eq!(eval_deriv2_e(&xa, &ya, 5, &mut acc), Ok(0));
    assert_eq!(eval_deriv2(&xa, &ya, 25, &mut acc), 0);
    assert_eq!(eval_deriv2_e(&xa, &ya, -7, &mut acc), Err(SolverError::DomainError));
}

#[test]
fn integ_over_full_range_sums_trapezoids() {
    // Trapezoids: 10*(5+15)/2 + 10*(15+10)/2 + 10*(10+0)/2 = 275.
    let (xa, ya) = grid();
    let mut acc = InterpAccel::new();
    assert_eq!(eval_integ_e(&xa, &ya, 0, 30, &mut acc), Ok(275));
    assert_eq!(eval_integ(&xa, &ya, 0, 30, &mut acc), 275);
}

#[test]
fn integ_partial_segments() {
    let (xa, ya) = grid();
    let mut acc = InterpAccel::new();
    // Within one segment: interp(12) = 14, interp(18) = 11, 6*(14+11)/2.
    assert_eq!(eval_integ_e(&xa, &ya, 12, 18, &mut acc), Ok(75));
    // Across a boundary: interp(5) = 10, interp(15) = 13:
    // 5*(10+15)/2 + 5*(15+13)/2 = (125 + 140)/2 = 132 (rounded down).
    assert_eq!(eval_integ_e(&xa, &ya, 5, 15, &mut acc), Ok(132));
    // An empty range integrates to zero.
    assert_eq!(eval_integ_e(&xa, &ya, 7, 7, &mut acc), Ok(0));
}

#[test]
fn integ_bad_range_domain_error() {
    let (xa, ya) = grid();
    let mut acc = InterpAccel::new();
    assert_eq!(eval_integ_e(&xa, &ya, 20, 10, &mut acc), Err(SolverError::DomainError));
    assert_eq!(eval_integ_e(&xa, &ya, -5, 10, &mut acc), Err(SolverError::DomainError));
    assert_eq!(eval_integ_e(&xa, &ya, 0, 31, &mut acc), Err(SolverError::DomainError));
}

#[test]
fn interpolated_function_drives_a_solver() {
    // A bracketing solver run on samples of the interpolated function: the
    // interpolant of (0,5),(10,15),(20,10),(30,0) crosses zero only at 30.
    let (xa, ya) = grid();
    let mut acc = InterpAccel::new();
    let mut s = rootfind::roots::RootFSolver::new(&rootfind::roots::RootFSolverType::bisection())
        .unwrap();
    let f0 = eval(&xa, &ya, 0, &mut acc) - 8;
    let f30 = eval(&xa, &ya, 30, &mut acc) - 8;
    // Solve interp(x) = 8 on [0, 30]: f(0) = -3, f(30) = -8 ... no sign
    // change downhill; bracket [10, 30] instead: f(10) = 7, f(30) = -8.
    assert_eq!(f0, -3);
    assert_eq!(f30, -8);
    let f10 = eval(&xa, &ya, 10, &mut acc) - 8;
    assert_eq!(f10, 7);
    s.set(10, 30, f10, f30).unwrap();
    for _ in 0..12 {
        let x = s.next_point();
        let fx = eval(&xa, &ya, x, &mut acc) - 8;
        s.iterate(fx).unwrap();
    }
    // interp crosses 8 in the last segment: 10 - (x-20) = 8 at x = 22,
    // where the truncated interpolant steps from 8 to 7.
    let root = s.root();
    assert!((root - 22).abs() <= 1, "root {root}");
}
