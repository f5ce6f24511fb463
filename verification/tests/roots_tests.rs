use rootfind::error::SolverError;
use rootfind::roots::{RootFSolver, RootFSolverType, RootFdfSolver, RootFdfSolverType};

// Coordinates are fixed-point with a caller-chosen scale; these tests use
// one unit = 1e-6, so sqrt(2) is close to 1_414_214.
const SQRT2_FIX: i64 = 1_414_214;

/// f(x) = x^2 - 2 at the 1e-6 scale: samples are x*x - 2e12.
fn f_sq2(x: i64) -> i64 {
    let xx: i128 = (x as i128) * (x as i128);
    (xx - 2_000_000_000_000i128) as i64
}

fn df_sq2(x: i64) -> i64 {
    2 * x
}

/// Drives a bracketing solver `n` steps on `f`, checking between steps that
/// the root estimate stays inside the bracket and the width never grows.
fn drive_bracketing(s: &mut RootFSolver, f: impl Fn(i64) -> i64, n: usize) {
    let mut width: i64 = s.x_upper() - s.x_lower();
    for _ in 0..n {
        let x = s.next_point();
        assert!(s.iterate(f(x)).is_ok());
        let lo = s.x_lower();
        let hi = s.x_upper();
        let root = s.root();
        assert!(lo <= root && root <= hi);
        assert!(hi - lo <= width);
        width = hi - lo;
    }
}

#[test]
fn bracketing_set_valid_bracket_succeeds() {
    // f(1) = -1, f(2) = 2 at unit scale: a valid bracket.
    let mut s = RootFSolver::new(&RootFSolverType::bisection()).unwrap();
    assert!(s.set(1_000_000, 2_000_000, f_sq2(1_000_000), f_sq2(2_000_000)).is_ok());
    assert!(s.is_ready());
}

#[test]
fn bracketing_set_invalid_bracket_rejected() {
    // f(2) = 2, f(3) = 7: no sign change, reported as InvalidBracket.
    let mut s = RootFSolver::new(&RootFSolverType::bisection()).unwrap();
    let r = s.set(2_000_000, 3_000_000, f_sq2(2_000_000), f_sq2(3_000_000));
    assert_eq!(r, Err(SolverError::InvalidBracket));
    assert!(!s.is_ready());
}

#[test]
fn bracketing_set_empty_interval_rejected() {
    let mut s = RootFSolver::new(&RootFSolverType::falsepos()).unwrap();
    assert_eq!(s.set(5, 5, -1, 1), Err(SolverError::InvalidBracket));
    assert_eq!(s.set(7, 3, -1, 1), Err(SolverError::InvalidBracket));
}

#[test]
fn bisection_width_halves_exactly() {
    // f(x) = x - 3 on [0, 1024]: the width is a power of two, so each
    // bisection step halves it exactly.
    let f = |x: i64| x - 3;
    let mut s = RootFSolver::new(&RootFSolverType::bisection()).unwrap();
    s.set(0, 1024, f(0), f(1024)).unwrap();
    assert_eq!(s.root(), 512);
    let mut expected: i64 = 1024;
    for _ in 0..5 {
        let x = s.next_point();
        s.iterate(f(x)).unwrap();
        expected /= 2;
        assert_eq!(s.x_upper() - s.x_lower(), expected);
    }
}

#[test]
fn bisection_root_stays_bracketed() {
    let mut s = RootFSolver::new(&RootFSolverType::bisection()).unwrap();
    s.set(1_000_000, 2_000_000, f_sq2(1_000_000), f_sq2(2_000_000)).unwrap();
    drive_bracketing(&mut s, f_sq2, 25);
    assert!((s.root() - SQRT2_FIX).abs() <= 2);
}

#[test]
fn falsepos_root_stays_bracketed() {
    let mut s = RootFSolver::new(&RootFSolverType::falsepos()).unwrap();
    s.set(1_000_000, 2_000_000, f_sq2(1_000_000), f_sq2(2_000_000)).unwrap();
    drive_bracketing(&mut s, f_sq2, 60);
    assert!((s.root() - SQRT2_FIX).abs() <= 2);
}

#[test]
fn brent_root_stays_bracketed() {
    let mut s = RootFSolver::new(&RootFSolverType::brent()).unwrap();
    s.set(1_000_000, 2_000_000, f_sq2(1_000_000), f_sq2(2_000_000)).unwrap();
    drive_bracketing(&mut s, f_sq2, 60);
    assert!((s.root() - SQRT2_FIX).abs() <= 2);
}

#[test]
fn falsepos_exact_hit_collapses_bracket() {
    // f(x) = x - 7 on [0, 100]: the secant cut lands exactly on 7, the
    // sample is zero, and the bracket collapses onto the root.
    let f = |x: i64| x - 7;
    let mut s = RootFSolver::new(&RootFSolverType::falsepos()).unwrap();
    s.set(0, 100, f(0), f(100)).unwrap();
    let x = s.next_point();
    assert_eq!(x, 7);
    s.iterate(f(x)).unwrap();
    assert_eq!(s.root(), 7);
    assert_eq!(s.x_lower(), 7);
    assert_eq!(s.x_upper(), 7);
}

#[test]
fn brent_linear_function_one_step() {
    // On a straight line the first Brent step interpolates the endpoints
    // and lands on the root at once.
    let f = |x: i64| x - 3;
    let mut s = RootFSolver::new(&RootFSolverType::brent()).unwrap();
    s.set(0, 1024, f(0), f(1024)).unwrap();
    let x = s.next_point();
    assert_eq!(x, 3);
    s.iterate(f(x)).unwrap();
    assert_eq!(s.root(), 3);
    assert_eq!(s.x_upper() - s.x_lower(), 0);
}

#[test]
fn brent_converges_on_quadratic() {
    // f(x) = x^2 - 2500 on [0, 90], root at 50: interpolation and
    // bisection steps shrink the bracket until the exact root is sampled.
    let f = |x: i64| x * x - 2500;
    let mut s = RootFSolver::new(&RootFSolverType::brent()).unwrap();
    s.set(0, 90, f(0), f(90)).unwrap();
    drive_bracketing(&mut s, f, 120);
    assert_eq!(s.root(), 50);
    assert_eq!(s.x_upper() - s.x_lower(), 0);
}

#[test]
fn zero_endpoint_collapses_immediately() {
    // A zero sample at an endpoint still straddles, and the first
    // iteration reports that endpoint as the exact root; iterating on the
    // collapsed bracket changes nothing.
    let mut s = RootFSolver::new(&RootFSolverType::bisection()).unwrap();
    assert!(s.set(0, 10, 0, 5).is_ok());
    s.iterate(123).unwrap();
    assert_eq!((s.x_lower(), s.x_upper(), s.root()), (0, 0, 0));
    s.iterate(-7).unwrap();
    assert_eq!((s.x_lower(), s.x_upper(), s.root()), (0, 0, 0));
}

#[test]
fn bracketing_accessors_idempotent() {
    let mut s = RootFSolver::new(&RootFSolverType::bisection()).unwrap();
    s.set(1_000_000, 2_000_000, -1_000_000, 2_000_000).unwrap();
    let x = s.next_point();
    s.iterate(f_sq2(x)).unwrap();
    assert_eq!(s.root(), s.root());
    assert_eq!(s.x_lower(), s.x_lower());
    assert_eq!(s.x_upper(), s.x_upper());
    let (r1, l1, u1) = (s.root(), s.x_lower(), s.x_upper());
    let (r2, l2, u2) = (s.root(), s.x_lower(), s.x_upper());
    assert_eq!((r1, l1, u1), (r2, l2, u2));
}

#[test]
fn bracketing_reset_solves_second_problem() {
    let mut s = RootFSolver::new(&RootFSolverType::bisection()).unwrap();
    s.set(0, 1024, -3, 1021).unwrap();
    s.iterate(509).unwrap();
    // Re-binding discards the first problem entirely.
    let f = |x: i64| x - 7;
    s.set(0, 100, f(0), f(100)).unwrap();
    assert_eq!(s.x_lower(), 0);
    assert_eq!(s.x_upper(), 100);
    assert_eq!(s.root(), 50);
}

#[test]
fn bracketing_names() {
    let b = RootFSolver::new(&RootFSolverType::bisection()).unwrap();
    let f = RootFSolver::new(&RootFSolverType::falsepos()).unwrap();
    let r = RootFSolver::new(&RootFSolverType::brent()).unwrap();
    assert_eq!(b.name(), "bisection");
    assert_eq!(f.name(), "falsepos");
    assert_eq!(r.name(), "brent");
}

#[test]
fn newton_sqrt2_quadratic_convergence() {
    // Newton on f(x) = x^2 - 2 from x0 = 1.5: the estimates are exactly
    // 1416667, 1414216, 1414214 at the 1e-6 scale — the error roughly
    // squares each iteration (85786, 2453, 2, 0) — and then stay fixed.
    let mut s = RootFdfSolver::new(&RootFdfSolverType::newton()).unwrap();
    s.set(1_500_000);
    let expected: [i64; 4] = [1_416_667, 1_414_216, 1_414_214, 1_414_214];
    for e in expected {
        let x = s.root();
        assert!(s.iterate(f_sq2(x), df_sq2(x)).is_ok());
        assert_eq!(s.root(), e);
    }
}

#[test]
fn secant_sqrt2_converges_slower_than_newton() {
    // Secant on the same function, seeded at 2.0 with one derivative-based
    // trial step: converges to the same root, but needs more iterations
    // than Newton and no derivative after the first step.
    let mut sec = RootFdfSolver::new(&RootFdfSolverType::secant()).unwrap();
    sec.set(2_000_000);
    let x0 = sec.root();
    sec.iterate(f_sq2(x0), df_sq2(x0)).unwrap();
    assert_eq!(sec.root(), 1_500_000);
    let x1 = sec.root();
    sec.iterate(f_sq2(x1), df_sq2(x1)).unwrap();
    assert_eq!(sec.root(), 1_428_572);

    let mut newt = RootFdfSolver::new(&RootFdfSolverType::newton()).unwrap();
    newt.set(1_500_000);
    for _ in 0..3 {
        let x = newt.root();
        newt.iterate(f_sq2(x), df_sq2(x)).unwrap();
        let x = sec.root();
        sec.iterate(f_sq2(x), df_sq2(x)).unwrap();
    }
    // After the same number of steps Newton is at least as close.
    assert!((newt.root() - SQRT2_FIX).abs() <= (sec.root() - SQRT2_FIX).abs());
    for _ in 0..5 {
        let x = sec.root();
        // Once the estimate is fixed the two retained samples coincide and
        // the step reports DerivativeDegenerate, leaving the root in place.
        if sec.iterate(f_sq2(x), df_sq2(x)).is_err() {
            break;
        }
    }
    assert!((sec.root() - SQRT2_FIX).abs() <= 2);
}

#[test]
fn steffenson_sqrt2_converges() {
    let mut s = RootFdfSolver::new(&RootFdfSolverType::steffenson()).unwrap();
    s.set(1_500_000);
    let x = s.root();
    s.iterate(f_sq2(x), df_sq2(x)).unwrap();
    assert_eq!(s.root(), 1_416_667);
    for _ in 0..6 {
        let x = s.root();
        s.iterate(f_sq2(x), df_sq2(x)).unwrap();
    }
    assert!((s.root() - SQRT2_FIX).abs() <= 1);
}

#[test]
fn newton_zero_derivative_degenerate() {
    let mut s = RootFdfSolver::new(&RootFdfSolverType::newton()).unwrap();
    s.set(100);
    let before = s.root();
    assert_eq!(s.iterate(50, 0), Err(SolverError::DerivativeDegenerate));
    // The failed step leaves the estimate untouched.
    assert_eq!(s.root(), before);
}

#[test]
fn newton_cutoff_rejects_small_derivative() {
    let mut s = RootFdfSolver::new_with_cutoff(&RootFdfSolverType::newton(), 5).unwrap();
    s.set(100);
    assert_eq!(s.iterate(50, 5), Err(SolverError::DerivativeDegenerate));
    assert_eq!(s.iterate(50, -5), Err(SolverError::DerivativeDegenerate));
    assert!(s.iterate(50, 6).is_ok());
    assert_eq!(s.root(), 100 - 50 / 6);
}

#[test]
fn secant_equal_samples_degenerate() {
    let mut s = RootFdfSolver::new(&RootFdfSolverType::secant()).unwrap();
    s.set(1000);
    // Seed step with the derivative.
    s.iterate(100, 1).unwrap();
    let before = s.root();
    // The retained sample was 100; an equal new sample has no secant.
    assert_eq!(s.iterate(100, 1), Err(SolverError::DerivativeDegenerate));
    assert_eq!(s.root(), before);
}

#[test]
fn newton_unrepresentable_step_domain_error() {
    let mut s = RootFdfSolver::new(&RootFdfSolverType::newton()).unwrap();
    s.set(i64::MAX - 10);
    let before = s.root();
    // The exact next estimate would exceed the coordinate range.
    assert_eq!(s.iterate(-100, 1), Err(SolverError::DomainError));
    assert_eq!(s.root(), before);
}

#[test]
fn polishing_accessors_idempotent() {
    let mut s = RootFdfSolver::new(&RootFdfSolverType::newton()).unwrap();
    s.set(1_500_000);
    assert_eq!(s.root(), s.root());
    assert_eq!(s.root(), 1_500_000);
}

#[test]
fn polishing_names() {
    let n = RootFdfSolver::new(&RootFdfSolverType::newton()).unwrap();
    let s = RootFdfSolver::new(&RootFdfSolverType::secant()).unwrap();
    let t = RootFdfSolver::new(&RootFdfSolverType::steffenson()).unwrap();
    assert_eq!(n.name(), Some("newton"));
    assert_eq!(s.name(), Some("secant"));
    assert_eq!(t.name(), Some("steffenson"));
}

#[test]
fn solver_instances_are_independent() {
    // Two solvers drive two different problems without interference.
    let f = |x: i64| x - 7;
    let g = |x: i64| x - 3;
    let mut a = RootFSolver::new(&RootFSolverType::bisection()).unwrap();
    let mut b = RootFSolver::new(&RootFSolverType::bisection()).unwrap();
    a.set(0, 100, f(0), f(100)).unwrap();
    b.set(0, 1024, g(0), g(1024)).unwrap();
    for _ in 0..20 {
        let xa = a.next_point();
        a.iterate(f(xa)).unwrap();
        let xb = b.next_point();
        b.iterate(g(xb)).unwrap();
    }
    assert_eq!(a.root(), 7);
    assert_eq!(b.root(), 3);
}
