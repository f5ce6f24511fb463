//! One-dimensional root solvers: bracketing algorithms (bisection, false
//! position, Brent) and derivative-based polishing algorithms (Newton,
//! secant, Steffenson).
//!
//! Both families follow the same driver protocol.  The caller constructs a
//! solver for a chosen algorithm, initialises it with `set`, then repeatedly
//! asks where to sample, evaluates its own function there, and hands the
//! sample to `iterate`; the solver keeps its own state between steps, so any
//! number of solvers can run independently.  The solver applies no
//! convergence test of its own: the caller polls the estimate accessors
//! between iterations and stops when its own test succeeds.
//!
//! Coordinates and sample values are exact `i64` fixed-point numbers, so
//! every update rule below is stated exactly and proved: a bracketing step
//! never grows the interval, the root estimate never leaves it, and a
//! bisection step halves an even-width interval exactly.

use vstd::prelude::*;
use vstd::arithmetic::div_mod::{lemma_div_nonincreasing, lemma_div_pos_is_pos};
use vstd::arithmetic::mul::lemma_mul_nonzero;
use vstd::math::abs;
use vstd::string::StringExecFns;
use crate::arith::{div_trunc_i128, in_i64, lemma_div_le_factor, lemma_mul_bounds, tdiv};
use crate::error::SolverError;

verus! {

/// The bracketing algorithms.  Each requires an initial interval whose
/// endpoint samples differ in sign, which guarantees that the function
/// crosses zero inside it; a valid bracket can then never be lost.
#[derive(Clone, Copy, Debug, PartialEq, Eq, Structural)]
pub enum RootFSolverType {
    /// Bisection: the midpoint sample decides which half-interval to keep.
    /// Linear convergence, never worse than one bit per step.
    Bisection,
    /// False position: the secant line through the endpoints supplies the
    /// cut point.  Linear convergence, usually faster than bisection.
    FalsePos,
    /// Brent-Dekker: an interpolation step (inverse quadratic once three
    /// samples are retained) guarded by a bisection fallback.
    Brent,
}

impl RootFSolverType {
    /// The bisection algorithm, the simplest and slowest bracketing method.
    pub fn bisection() -> (t: RootFSolverType)
        ensures
            t == RootFSolverType::Bisection,
    {
        RootFSolverType::Bisection
    }

    /// The Brent-Dekker method, interpolation guarded by bisection.
    pub fn brent() -> (t: RootFSolverType)
        ensures
            t == RootFSolverType::Brent,
    {
        RootFSolverType::Brent
    }

    /// The false position algorithm, linear interpolation of the endpoints.
    pub fn falsepos() -> (t: RootFSolverType)
        ensures
            t == RootFSolverType::FalsePos,
    {
        RootFSolverType::FalsePos
    }
}

/// Whether two endpoint samples bracket a zero: neither both positive nor
/// both negative (a zero endpoint counts as bracketing).
pub open spec fn straddles(fa: int, fb: int) -> bool {
    !(fa > 0 && fb > 0) && !(fa < 0 && fb < 0)
}

/// The midpoint of `[lo, hi]`, rounded toward `lo`.
pub open spec fn midpoint(lo: int, hi: int) -> int {
    lo + (hi - lo) / 2
}

/// Where the secant line through `(lo, flo)` and `(hi, fhi)` crosses zero,
/// rounded toward `lo`.  Meaningful when the samples have strictly opposite
/// signs.
pub open spec fn falsepos_point(lo: int, hi: int, flo: int, fhi: int) -> int
    recommends
        (flo < 0 && fhi > 0) || (flo > 0 && fhi < 0),
{
    if flo < 0 {
        lo + ((-flo) * (hi - lo)) / (fhi - flo)
    } else {
        lo + (flo * (hi - lo)) / (flo - fhi)
    }
}

/// The midpoint lies in the interval.
pub proof fn lemma_midpoint_in_range(lo: int, hi: int)
    requires
        lo <= hi,
    ensures
        lo <= midpoint(lo, hi) <= hi,
{
    lemma_div_pos_is_pos(hi - lo, 2);
    lemma_div_nonincreasing(hi - lo, 2);
}

/// The secant cut lies in the interval whenever the endpoint samples have
/// strictly opposite signs.
pub proof fn lemma_falsepos_in_range(lo: int, hi: int, flo: int, fhi: int)
    requires
        lo <= hi,
        (flo < 0 && fhi > 0) || (flo > 0 && fhi < 0),
    ensures
        lo <= falsepos_point(lo, hi, flo, fhi) <= hi,
{
    let w = hi - lo;
    if flo < 0 {
        let p = -flo;
        let d = fhi - flo;
        assert(0 <= p * w && p * w <= d * w) by (nonlinear_arith)
            requires
                0 < p <= d,
                0 <= w,
        ;
        lemma_div_pos_is_pos(p * w, d);
        lemma_div_le_factor(p * w, d, w);
    } else {
        let p = flo;
        let d = flo - fhi;
        assert(0 <= p * w && p * w <= d * w) by (nonlinear_arith)
            requires
                0 < p <= d,
                0 <= w,
        ;
        lemma_div_pos_is_pos(p * w, d);
        lemma_div_le_factor(p * w, d, w);
    }
}

/// Magnitude bound inside which an inverse-quadratic interpolant is formed
/// exactly; larger samples fall back to a bisection step.
pub const INTERP_FIT_BOUND: i64 = 0x4000_0000;

/// Whether a value is small enough to enter the exact interpolant.
pub open spec fn interp_fit(v: int) -> bool {
    -(INTERP_FIT_BOUND as int) <= v <= INTERP_FIT_BOUND as int
}

/// Whether an inverse-quadratic step can be attempted: all six retained
/// values within the exact-arithmetic bound and the three sample values
/// pairwise distinct.
pub open spec fn iqi_usable(lo: int, hi: int, flo: int, fhi: int, xa: int, fa: int) -> bool {
    interp_fit(lo) && interp_fit(hi) && interp_fit(flo) && interp_fit(fhi) && interp_fit(xa)
        && interp_fit(fa) && flo != fhi && flo != fa && fhi != fa
}

/// Numerator of the inverse-quadratic interpolant through `(a, fa)`,
/// `(b, fb)`, `(c, fc)` at zero, over the denominator [`iqi_den`].
pub open spec fn iqi_num(a: int, fa: int, b: int, fb: int, c: int, fc: int) -> int {
    a * fb * fc * (fb - fc) - b * fa * fc * (fa - fc) + c * fa * fb * (fa - fb)
}

/// Common denominator of the inverse-quadratic interpolant.
pub open spec fn iqi_den(fa: int, fb: int, fc: int) -> int {
    (fa - fb) * (fa - fc) * (fb - fc)
}

/// The candidate a Brent step proposes.  With three retained samples it is
/// the inverse-quadratic interpolant, accepted only if it falls strictly
/// inside the bracket; with two it is the secant cut under the same
/// acceptance test; whenever the candidate is unusable or rejected the step
/// is an ordinary bisection.
pub open spec fn brent_point(
    lo: int,
    hi: int,
    flo: int,
    fhi: int,
    have_aux: bool,
    xa: int,
    fa: int,
) -> int {
    if have_aux {
        if iqi_usable(lo, hi, flo, fhi, xa, fa) {
            let c = tdiv(iqi_num(lo, flo, hi, fhi, xa, fa), iqi_den(flo, fhi, fa));
            if lo < c && c < hi {
                c
            } else {
                midpoint(lo, hi)
            }
        } else {
            midpoint(lo, hi)
        }
    } else {
        let c = falsepos_point(lo, hi, flo, fhi);
        if lo < c && c < hi {
            c
        } else {
            midpoint(lo, hi)
        }
    }
}

/// The abstract state of a bracketing solver: the algorithm, whether `set`
/// has initialised it, the bracket with its endpoint samples, the current
/// root estimate, and (for Brent) the retained third sample.
pub struct BracketModel {
    pub kind: RootFSolverType,
    pub ready: bool,
    pub lower: int,
    pub upper: int,
    pub f_lower: int,
    pub f_upper: int,
    pub root: int,
    pub have_aux: bool,
    pub x_aux: int,
    pub f_aux: int,
}

impl BracketModel {
    /// The solver invariant: once initialised, the bracket is ordered, the
    /// root estimate lies inside it, and the endpoint samples straddle zero.
    pub open spec fn wf(self) -> bool {
        self.ready ==> {
            &&& self.lower <= self.upper
            &&& self.lower <= self.root <= self.upper
            &&& straddles(self.f_lower, self.f_upper)
        }
    }
}

/// Where the next sample is taken: a zero endpoint is reported as the root
/// at once; otherwise each algorithm proposes its own cut point.
pub open spec fn bracket_next_point(m: BracketModel) -> int {
    if m.f_lower == 0 {
        m.lower
    } else if m.f_upper == 0 {
        m.upper
    } else {
        match m.kind {
            RootFSolverType::Bisection => midpoint(m.lower, m.upper),
            RootFSolverType::FalsePos => falsepos_point(m.lower, m.upper, m.f_lower, m.f_upper),
            RootFSolverType::Brent => brent_point(
                m.lower,
                m.upper,
                m.f_lower,
                m.f_upper,
                m.have_aux,
                m.x_aux,
                m.f_aux,
            ),
        }
    }
}

/// The sample point never leaves the bracket.
pub proof fn lemma_next_point_in_range(m: BracketModel)
    requires
        m.wf(),
        m.ready,
    ensures
        m.lower <= bracket_next_point(m) <= m.upper,
{
    if m.f_lower != 0 && m.f_upper != 0 {
        lemma_midpoint_in_range(m.lower, m.upper);
        match m.kind {
            RootFSolverType::Bisection => {},
            RootFSolverType::FalsePos => {
                lemma_falsepos_in_range(m.lower, m.upper, m.f_lower, m.f_upper);
            },
            RootFSolverType::Brent => {
                if !m.have_aux {
                    lemma_falsepos_in_range(m.lower, m.upper, m.f_lower, m.f_upper);
                }
            },
        }
    }
}

/// The root estimate an algorithm reports for the updated bracket
/// `[lo, hi]` after sampling at `x`: bisection re-centres, the
/// interpolating algorithms keep the new sample point.
pub open spec fn bracket_root_after(kind: RootFSolverType, lo: int, hi: int, x: int) -> int {
    if kind == RootFSolverType::Bisection {
        midpoint(lo, hi)
    } else {
        x
    }
}

/// A collapsed bracket: the root has been located exactly at `x`.
pub open spec fn bracket_collapse(m: BracketModel, x: int) -> BracketModel {
    BracketModel {
        lower: x,
        upper: x,
        f_lower: 0,
        f_upper: 0,
        root: x,
        have_aux: false,
        x_aux: 0,
        f_aux: 0,
        ..m
    }
}

/// One bracketing iteration: `fm` is the caller's sample at
/// [`bracket_next_point`].  A zero sample collapses the bracket onto the
/// exact root; otherwise the half whose endpoint sample shares the sign of
/// `fm` is discarded, and the discarded endpoint is retained as Brent's
/// third sample.
pub open spec fn bracket_step(m: BracketModel, fm: int) -> BracketModel {
    if m.lower == m.upper {
        m
    } else if m.f_lower == 0 {
        bracket_collapse(m, m.lower)
    } else if m.f_upper == 0 {
        bracket_collapse(m, m.upper)
    } else {
        let x = bracket_next_point(m);
        if fm == 0 {
            bracket_collapse(m, x)
        } else if (m.f_lower < 0 && fm > 0) || (m.f_lower > 0 && fm < 0) {
            BracketModel {
                upper: x,
                f_upper: fm,
                root: bracket_root_after(m.kind, m.lower, x, x),
                have_aux: true,
                x_aux: m.upper,
                f_aux: m.f_upper,
                ..m
            }
        } else {
            BracketModel {
                lower: x,
                f_lower: fm,
                root: bracket_root_after(m.kind, x, m.upper, x),
                have_aux: true,
                x_aux: m.lower,
                f_aux: m.f_lower,
                ..m
            }
        }
    }
}

/// Every bracketing iteration keeps the solver invariant, nests the new
/// bracket inside the old one, and never grows the interval width —
/// whatever sample value the caller hands in.
pub proof fn lemma_bracket_step_preserves(m: BracketModel, fm: int)
    requires
        m.wf(),
        m.ready,
    ensures
        bracket_step(m, fm).wf(),
        bracket_step(m, fm).ready,
        bracket_step(m, fm).kind == m.kind,
        m.lower <= bracket_step(m, fm).lower,
        bracket_step(m, fm).upper <= m.upper,
        bracket_step(m, fm).lower <= bracket_step(m, fm).upper,
        bracket_step(m, fm).upper - bracket_step(m, fm).lower <= m.upper - m.lower,
{
    lemma_next_point_in_range(m);
    if m.lower != m.upper && m.f_lower != 0 && m.f_upper != 0 && fm != 0 {
        let x = bracket_next_point(m);
        if (m.f_lower < 0 && fm > 0) || (m.f_lower > 0 && fm < 0) {
            lemma_midpoint_in_range(m.lower, x);
        } else {
            lemma_midpoint_in_range(x, m.upper);
        }
    }
}

/// A bisection step on a proper bracket with nonzero samples cuts the width
/// to one of the two integer halves, and to exactly half when the width is
/// even.
pub proof fn lemma_bisection_step_width(m: BracketModel, fm: int)
    requires
        m.wf(),
        m.ready,
        m.kind == RootFSolverType::Bisection,
        m.lower < m.upper,
        m.f_lower != 0,
        m.f_upper != 0,
        fm != 0,
    ensures
        ({
            let w = m.upper - m.lower;
            let s = bracket_step(m, fm);
            let w2 = s.upper - s.lower;
            (w2 == w / 2 || w2 == w - w / 2) && (w % 2 == 0 ==> w2 == w / 2)
        }),
{
    let w = m.upper - m.lower;
    assert(w == (w / 2) * 2 + w % 2) by {
        vstd::arithmetic::div_mod::lemma_fundamental_div_mod(w, 2);
    }
}

/// A bracketing solver: one bracketing algorithm together with its current
/// interval, endpoint samples, root estimate, and Brent's retained sample.
///
/// The caller protocol per step is: ask [`RootFSolver::next_point`] where to
/// sample, evaluate the function there, and hand the sample value to
/// [`RootFSolver::iterate`].
pub struct RootFSolver {
    kind: RootFSolverType,
    ready: bool,
    lower: i64,
    upper: i64,
    f_lower: i64,
    f_upper: i64,
    root: i64,
    have_aux: bool,
    x_aux: i64,
    f_aux: i64,
}

impl View for RootFSolver {
    type V = BracketModel;

    closed spec fn view(&self) -> BracketModel {
        BracketModel {
            kind: self.kind,
            ready: self.ready,
            lower: self.lower as int,
            upper: self.upper as int,
            f_lower: self.f_lower as int,
            f_upper: self.f_upper as int,
            root: self.root as int,
            have_aux: self.have_aux,
            x_aux: self.x_aux as int,
            f_aux: self.f_aux as int,
        }
    }
}

/// The name of a bracketing algorithm, as `RootFSolver::name` reports it.
pub open spec fn fsolver_name(k: RootFSolverType) -> Seq<char> {
    match k {
        RootFSolverType::Bisection => "bisection"@,
        RootFSolverType::FalsePos => "falsepos"@,
        RootFSolverType::Brent => "brent"@,
    }
}

/// The midpoint of `[lo, hi]`, computed without overflow.
fn midpoint_exec(lo: i64, hi: i64) -> (m: i64)
    requires
        lo <= hi,
    ensures
        m as int == midpoint(lo as int, hi as int),
        lo <= m <= hi,
{
    proof {
        lemma_midpoint_in_range(lo as int, hi as int);
    }
    let w: u64 = ((hi as i128) - (lo as i128)) as u64;
    let h: u64 = w / 2;
    (((lo as i128) + (h as i128)) as i64)
}

/// The secant cut of `[lo, hi]`, computed without overflow.
fn secant_cut(lo: i64, hi: i64, flo: i64, fhi: i64) -> (m: i64)
    requires
        lo <= hi,
        (flo < 0 && fhi > 0) || (flo > 0 && fhi < 0),
    ensures
        m as int == falsepos_point(lo as int, hi as int, flo as int, fhi as int),
        lo <= m <= hi,
{
    proof {
        lemma_falsepos_in_range(lo as int, hi as int, flo as int, fhi as int);
    }
    let w: u128 = (((hi as i128) - (lo as i128)) as u128);
    let p: u128 = if flo < 0 {
        ((-(flo as i128)) as u128)
    } else {
        (flo as u128)
    };
    let d: u128 = if flo < 0 {
        (((fhi as i128) - (flo as i128)) as u128)
    } else {
        (((flo as i128) - (fhi as i128)) as u128)
    };
    proof {
        lemma_mul_bounds(p as int, w as int, 0x8000_0000_0000_0000, 0xffff_ffff_ffff_ffff);
        assert(0 <= (p as int) * (w as int) <= (d as int) * (w as int)) by (nonlinear_arith)
            requires
                0 < p as int <= d as int,
                0 <= w as int,
        ;
        lemma_div_pos_is_pos((p as int) * (w as int), d as int);
        lemma_div_le_factor((p as int) * (w as int), d as int, w as int);
    }
    let q: u128 = (p * w) / d;
    (((lo as i128) + (q as i128)) as i64)
}

impl RootFSolver {
    /// Returns a freshly allocated solver of algorithm `t`, not yet bound to
    /// a problem.  `None` would report allocation failure; allocation here
    /// cannot fail, so the solver is always returned.
    pub fn new(t: &RootFSolverType) -> (r: Option<RootFSolver>)
        ensures
            r matches Some(s) && s@ == (BracketModel {
                kind: *t,
                ready: false,
                lower: 0,
                upper: 0,
                f_lower: 0,
                f_upper: 0,
                root: 0,
                have_aux: false,
                x_aux: 0,
                f_aux: 0,
            }),
    {
        Some(
            RootFSolver {
                kind: *t,
                ready: false,
                lower: 0,
                upper: 0,
                f_lower: 0,
                f_upper: 0,
                root: 0,
                have_aux: false,
                x_aux: 0,
                f_aux: 0,
            },
        )
    }

    /// Initialises, or reinitialises, the solver on the interval
    /// `[x_lower, x_upper]` whose endpoint samples are `f_lower` and
    /// `f_upper`.  The call fails fast with `InvalidBracket` — leaving the
    /// solver unchanged — unless the interval is proper and the samples
    /// straddle zero; on success the root estimate starts at the midpoint.
    pub fn set(&mut self, x_lower: i64, x_upper: i64, f_lower: i64, f_upper: i64) -> (r: Result<
        (),
        SolverError,
    >)
        ensures
            r is Ok <==> (x_lower < x_upper && straddles(f_lower as int, f_upper as int)),
            r is Ok ==> final(self)@ == (BracketModel {
                kind: old(self)@.kind,
                ready: true,
                lower: x_lower as int,
                upper: x_upper as int,
                f_lower: f_lower as int,
                f_upper: f_upper as int,
                root: midpoint(x_lower as int, x_upper as int),
                have_aux: false,
                x_aux: 0,
                f_aux: 0,
            }),
            r is Ok ==> final(self)@.wf() && final(self)@.ready,
            !(r is Ok) ==> r == Err::<(), SolverError>(SolverError::InvalidBracket) && *final(self)
                == *old(self),
    {
        if x_lower >= x_upper {
            return Err(SolverError::InvalidBracket);
        }
        if (f_lower > 0 && f_upper > 0) || (f_lower < 0 && f_upper < 0) {
            return Err(SolverError::InvalidBracket);
        }
        let mid = midpoint_exec(x_lower, x_upper);
        self.ready = true;
        self.lower = x_lower;
        self.upper = x_upper;
        self.f_lower = f_lower;
        self.f_upper = f_upper;
        self.root = mid;
        self.have_aux = false;
        self.x_aux = 0;
        self.f_aux = 0;
        Ok(())
    }

    /// The point at which the caller must evaluate its function before the
    /// next [`RootFSolver::iterate`] call.  It never leaves the bracket.
    pub fn next_point(&self) -> (x: i64)
        requires
            self@.wf(),
            self@.ready,
        ensures
            x as int == bracket_next_point(self@),
            self@.lower <= x as int <= self@.upper,
    {
        proof {
            lemma_next_point_in_range(self@);
        }
        if self.f_lower == 0 {
            self.lower
        } else if self.f_upper == 0 {
            self.upper
        } else {
            match self.kind {
                RootFSolverType::Bisection => midpoint_exec(self.lower, self.upper),
                RootFSolverType::FalsePos => secant_cut(
                    self.lower,
                    self.upper,
                    self.f_lower,
                    self.f_upper,
                ),
                RootFSolverType::Brent => self.brent_candidate(),
            }
        }
    }

    /// The Brent cut point: the guarded interpolation candidate, or the
    /// midpoint where interpolation is unusable or rejected.
    fn brent_candidate(&self) -> (x: i64)
        requires
            self@.wf(),
            self@.ready,
            self@.f_lower != 0,
            self@.f_upper != 0,
        ensures
            x as int == brent_point(
                self@.lower,
                self@.upper,
                self@.f_lower,
                self@.f_upper,
                self@.have_aux,
                self@.x_aux,
                self@.f_aux,
            ),
            self@.lower <= x as int <= self@.upper,
    {
        proof {
            lemma_midpoint_in_range(self@.lower, self@.upper);
        }
        if !self.have_aux {
            let c = secant_cut(self.lower, self.upper, self.f_lower, self.f_upper);
            if self.lower < c && c < self.upper {
                c
            } else {
                midpoint_exec(self.lower, self.upper)
            }
        } else {
            let fits = self.lower >= -INTERP_FIT_BOUND && self.lower <= INTERP_FIT_BOUND
                && self.upper >= -INTERP_FIT_BOUND && self.upper <= INTERP_FIT_BOUND
                && self.f_lower >= -INTERP_FIT_BOUND && self.f_lower <= INTERP_FIT_BOUND
                && self.f_upper >= -INTERP_FIT_BOUND && self.f_upper <= INTERP_FIT_BOUND
                && self.x_aux >= -INTERP_FIT_BOUND && self.x_aux <= INTERP_FIT_BOUND
                && self.f_aux >= -INTERP_FIT_BOUND && self.f_aux <= INTERP_FIT_BOUND;
            let distinct = self.f_lower != self.f_upper && self.f_lower != self.f_aux
                && self.f_upper != self.f_aux;
            if fits && distinct {
                let c = iqi_cut(
                    self.lower,
                    self.f_lower,
                    self.upper,
                    self.f_upper,
                    self.x_aux,
                    self.f_aux,
                );
                if (self.lower as i128) < c && c < (self.upper as i128) {
                    (c as i64)
                } else {
                    midpoint_exec(self.lower, self.upper)
                }
            } else {
                midpoint_exec(self.lower, self.upper)
            }
        }
    }

    /// Performs a single iteration of the solver, with `f_next` the caller's
    /// sample at [`RootFSolver::next_point`].  The same call drives every
    /// algorithm, so methods can be substituted at runtime without touching
    /// the driver loop.
    ///
    /// The new bracket is nested inside the old one, its width never grows,
    /// and the root estimate stays inside it.  With the sign invariant
    /// maintained by `set`, no numerical degeneracy can arise, so the step
    /// always succeeds.
    pub fn iterate(&mut self, f_next: i64) -> (r: Result<(), SolverError>)
        requires
            old(self)@.wf(),
            old(self)@.ready,
        ensures
            r is Ok,
            final(self)@ == bracket_step(old(self)@, f_next as int),
            final(self)@.wf(),
            final(self)@.ready,
            final(self)@.kind == old(self)@.kind,
            old(self)@.lower <= final(self)@.lower,
            final(self)@.upper <= old(self)@.upper,
            final(self)@.lower <= final(self)@.upper,
            final(self)@.upper - final(self)@.lower <= old(self)@.upper - old(self)@.lower,
            final(self)@.lower <= final(self)@.root <= final(self)@.upper,
    {
        proof {
            lemma_bracket_step_preserves(self@, f_next as int);
        }
        if self.lower == self.upper {
            return Ok(());
        }
        if self.f_lower == 0 {
            let x = self.lower;
            self.collapse(x);
            return Ok(());
        }
        if self.f_upper == 0 {
            let x = self.upper;
            self.collapse(x);
            return Ok(());
        }
        let x = self.next_point();
        if f_next == 0 {
            self.collapse(x);
            return Ok(());
        }
        if (self.f_lower < 0 && f_next > 0) || (self.f_lower > 0 && f_next < 0) {
            self.x_aux = self.upper;
            self.f_aux = self.f_upper;
            self.have_aux = true;
            self.upper = x;
            self.f_upper = f_next;
            self.root = if self.kind == RootFSolverType::Bisection {
                midpoint_exec(self.lower, x)
            } else {
                x
            };
        } else {
            self.x_aux = self.lower;
            self.f_aux = self.f_lower;
            self.have_aux = true;
            self.lower = x;
            self.f_lower = f_next;
            self.root = if self.kind == RootFSolverType::Bisection {
                midpoint_exec(x, self.upper)
            } else {
                x
            };
        }
        Ok(())
    }

    /// Collapses the bracket onto the exactly located root `x`.
    fn collapse(&mut self, x: i64)
        ensures
            final(self)@ == bracket_collapse(old(self)@, x as int),
    {
        self.lower = x;
        self.upper = x;
        self.f_lower = 0;
        self.f_upper = 0;
        self.root = x;
        self.have_aux = false;
        self.x_aux = 0;
        self.f_aux = 0;
    }

    /// The algorithm's name: `"bisection"`, `"falsepos"` or `"brent"`.
    pub fn name(&self) -> (r: String)
        ensures
            r@ == fsolver_name(self@.kind),
    {
        match self.kind {
            RootFSolverType::Bisection => String::from_str("bisection"),
            RootFSolverType::FalsePos => String::from_str("falsepos"),
            RootFSolverType::Brent => String::from_str("brent"),
        }
    }

    /// Whether `set` has initialised the solver.
    pub fn is_ready(&self) -> (b: bool)
        ensures
            b == self@.ready,
    {
        self.ready
    }

    /// The current best estimate of the root.  A pure read: calling it any
    /// number of times between iterations returns the same value.
    pub fn root(&self) -> (r: i64)
        requires
            self@.ready,
        ensures
            r as int == self@.root,
    {
        self.root
    }

    /// The lower end of the current bracketing interval.  A pure read.
    pub fn x_lower(&self) -> (r: i64)
        requires
            self@.ready,
        ensures
            r as int == self@.lower,
    {
        self.lower
    }

    /// The upper end of the current bracketing interval.  A pure read.
    pub fn x_upper(&self) -> (r: i64)
        requires
            self@.ready,
        ensures
            r as int == self@.upper,
    {
        self.upper
    }
}

/// The exact inverse-quadratic cut through three small, pairwise-distinct
/// samples.
fn iqi_cut(a: i64, fa: i64, b: i64, fb: i64, c: i64, fc: i64) -> (x: i128)
    requires
        interp_fit(a as int),
        interp_fit(fa as int),
        interp_fit(b as int),
        interp_fit(fb as int),
        interp_fit(c as int),
        interp_fit(fc as int),
        fa != fb,
        fa != fc,
        fb != fc,
    ensures
        x as int == tdiv(
            iqi_num(a as int, fa as int, b as int, fb as int, c as int, fc as int),
            iqi_den(fa as int, fb as int, fc as int),
        ),
{
    let ai = a as i128;
    let bi = b as i128;
    let ci = c as i128;
    let fai = fa as i128;
    let fbi = fb as i128;
    let fci = fc as i128;
    proof {
        let bnd: int = INTERP_FIT_BOUND as int;
        lemma_mul_bounds(ai as int, fbi as int, bnd, bnd);
        lemma_mul_bounds(ai as int * fbi as int, fci as int, bnd * bnd, bnd);
        lemma_mul_bounds(ai as int * fbi as int * fci as int, fbi as int - fci as int, bnd * bnd * bnd, 2 * bnd);
        lemma_mul_bounds(bi as int, fai as int, bnd, bnd);
        lemma_mul_bounds(bi as int * fai as int, fci as int, bnd * bnd, bnd);
        lemma_mul_bounds(bi as int * fai as int * fci as int, fai as int - fci as int, bnd * bnd * bnd, 2 * bnd);
        lemma_mul_bounds(ci as int, fai as int, bnd, bnd);
        lemma_mul_bounds(ci as int * fai as int, fbi as int, bnd * bnd, bnd);
        lemma_mul_bounds(ci as int * fai as int * fbi as int, fai as int - fbi as int, bnd * bnd * bnd, 2 * bnd);
        lemma_mul_bounds(fai as int - fbi as int, fai as int - fci as int, 2 * bnd, 2 * bnd);
        lemma_mul_bounds(
            (fai as int - fbi as int) * (fai as int - fci as int),
            fbi as int - fci as int,
            4 * bnd * bnd,
            2 * bnd,
        );
        lemma_mul_nonzero(fai as int - fbi as int, fai as int - fci as int);
        lemma_mul_nonzero((fai as int - fbi as int) * (fai as int - fci as int), fbi as int - fci as int);
    }
    let t1: i128 = ai * fbi * fci * (fbi - fci);
    let t2: i128 = bi * fai * fci * (fai - fci);
    let t3: i128 = ci * fai * fbi * (fai - fbi);
    let num: i128 = t1 - t2 + t3;
    let den: i128 = (fai - fbi) * (fai - fci) * (fbi - fci);
    div_trunc_i128(num, den)
}

/// The bracket states reached by feeding the sample sequence `fs` to the
/// iteration, one sample per step.
pub open spec fn bracket_iter(m: BracketModel, fs: Seq<int>) -> BracketModel
    decreases fs.len(),
{
    if fs.len() == 0 {
        m
    } else {
        bracket_iter(bracket_step(m, fs[0]), fs.drop_first())
    }
}

/// Any number of iterations of any bracketing algorithm, on any sample
/// sequence, keeps the solver invariant, nests the final bracket inside the
/// initial one — so the interval width is monotonically non-increasing from
/// step to step — and keeps the root estimate inside the bracket.
pub proof fn lemma_bracket_iter_nested(m: BracketModel, fs: Seq<int>)
    requires
        m.wf(),
        m.ready,
    ensures
        bracket_iter(m, fs).wf(),
        bracket_iter(m, fs).ready,
        bracket_iter(m, fs).kind == m.kind,
        m.lower <= bracket_iter(m, fs).lower,
        bracket_iter(m, fs).upper <= m.upper,
        bracket_iter(m, fs).lower <= bracket_iter(m, fs).upper,
        bracket_iter(m, fs).upper - bracket_iter(m, fs).lower <= m.upper - m.lower,
        bracket_iter(m, fs).lower <= bracket_iter(m, fs).root <= bracket_iter(m, fs).upper,
    decreases fs.len(),
{
    if fs.len() == 0 {
    } else {
        lemma_bracket_step_preserves(m, fs[0]);
        lemma_bracket_iter_nested(bracket_step(m, fs[0]), fs.drop_first());
    }
}

/// Bisection cuts the interval width to exactly `(b - a) / 2^n` after `n`
/// iterations, with no rounding at any step, whenever `2^n` divides the
/// initial width and no sample along the way hits the root exactly.
pub proof fn lemma_bisection_iterated_width(m: BracketModel, fs: Seq<int>)
    requires
        m.wf(),
        m.ready,
        m.kind == RootFSolverType::Bisection,
        m.lower < m.upper,
        m.f_lower != 0,
        m.f_upper != 0,
        forall|i: int| 0 <= i < fs.len() ==> fs[i] != 0,
        (m.upper - m.lower) % (vstd::arithmetic::power2::pow2(fs.len()) as int) == 0,
    ensures
        bracket_iter(m, fs).upper - bracket_iter(m, fs).lower == (m.upper - m.lower) / (
        vstd::arithmetic::power2::pow2(fs.len()) as int),
    decreases fs.len(),
{
    let w = m.upper - m.lower;
    let n = fs.len();
    vstd::arithmetic::power2::lemma_pow2_pos(n);
    if n == 0 {
        assert(vstd::arithmetic::power2::pow2(0) == 1) by {
            vstd::arithmetic::power::lemma_pow0(2);
            vstd::arithmetic::power2::lemma_pow2(0);
        }
        vstd::arithmetic::div_mod::lemma_div_basics(w);
    } else {
        let p = vstd::arithmetic::power2::pow2(n) as int;
        let p1 = vstd::arithmetic::power2::pow2((n - 1) as nat) as int;
        vstd::arithmetic::power2::lemma_pow2_pos((n - 1) as nat);
        assert(p == 2 * p1) by {
            vstd::arithmetic::power2::lemma_pow2_adds((n - 1) as nat, 1);
            vstd::arithmetic::power2::lemma_pow2(1);
            vstd::arithmetic::power::lemma_pow1(2);
        }
        vstd::arithmetic::div_mod::lemma_fundamental_div_mod(w, p);
        let q = w / p;
        let h = p1 * q;
        assert(w == 2 * h) by (nonlinear_arith)
            requires
                w == p * q,
                p == 2 * p1,
                h == p1 * q,
        ;
        assert(q > 0) by (nonlinear_arith)
            requires
                w == p * q,
                w > 0,
                p > 0,
        ;
        assert(h >= p1 * 1 >= 1) by (nonlinear_arith)
            requires
                h == p1 * q,
                q >= 1,
                p1 >= 1,
        ;
        assert(w % 2 == 0) by {
            vstd::arithmetic::div_mod::lemma_mod_multiples_basic(h, 2);
            assert(h * 2 == 2 * h) by (nonlinear_arith);
        }
        assert(w / 2 == h) by {
            vstd::arithmetic::div_mod::lemma_div_multiples_vanish(h, 2);
        }
        let s1 = bracket_step(m, fs[0]);
        lemma_bracket_step_preserves(m, fs[0]);
        lemma_bisection_step_width(m, fs[0]);
        assert(s1.upper - s1.lower == h);
        assert((s1.upper - s1.lower) % p1 == 0) by {
            vstd::arithmetic::div_mod::lemma_mod_multiples_basic(q, p1);
            assert(q * p1 == p1 * q) by (nonlinear_arith);
        }
        assert(forall|i: int| 0 <= i < fs.drop_first().len() ==> fs.drop_first()[i] != 0) by {
            assert(forall|i: int|
                0 <= i < fs.drop_first().len() ==> fs.drop_first()[i] == fs[i + 1]);
        }
        lemma_bisection_iterated_width(s1, fs.drop_first());
        assert(bracket_iter(s1, fs.drop_first()).upper - bracket_iter(s1, fs.drop_first()).lower
            == h / p1);
        assert(h / p1 == q) by {
            vstd::arithmetic::div_mod::lemma_div_multiples_vanish(q, p1);
        }
    }
}

/// The polishing algorithms.  Each refines a single point estimate from an
/// initial guess, using the function and its derivative; there is no
/// bracketing interval and no rigorous error bound, in exchange for faster
/// convergence near a root.
#[derive(Clone, Copy, Debug, PartialEq, Eq, Structural)]
pub enum RootFdfSolverType {
    /// Newton's method: follow the tangent at the current estimate to its
    /// zero crossing.  Quadratic convergence near a simple root.
    Newton,
    /// The secant method: after a derivative-seeded first step, replace the
    /// derivative by the finite difference of the last two samples.
    Secant,
    /// The Steffenson method: Newton steps accelerated by Aitken's
    /// delta-squared formula once three estimates are retained.
    Steffenson,
}

impl RootFdfSolverType {
    /// Newton's method, the standard root-polishing algorithm.
    pub fn newton() -> (t: RootFdfSolverType)
        ensures
            t == RootFdfSolverType::Newton,
    {
        RootFdfSolverType::Newton
    }

    /// The secant method, Newton's method without per-step derivatives.
    pub fn secant() -> (t: RootFdfSolverType)
        ensures
            t == RootFdfSolverType::Secant,
    {
        RootFdfSolverType::Secant
    }

    /// The Steffenson method, Newton with Aitken acceleration.
    pub fn steffenson() -> (t: RootFdfSolverType)
        ensures
            t == RootFdfSolverType::Steffenson,
    {
        RootFdfSolverType::Steffenson
    }
}

/// One Newton update from `x` with sample `fx` and derivative `dfx`.
pub open spec fn newton_next(x: int, fx: int, dfx: int) -> int
    recommends
        dfx != 0,
{
    x - tdiv(fx, dfx)
}

/// One secant update from `x` with sample `fx`, against the previous point
/// `xp` with sample `fp`.
pub open spec fn secant_next(x: int, fx: int, xp: int, fp: int) -> int
    recommends
        fx != fp,
{
    x - tdiv(fx * (x - xp), fx - fp)
}

/// Aitken's delta-squared acceleration of the three most recent estimates
/// `xp`, `x`, `xn` (oldest first).
pub open spec fn aitken_accel(xp: int, x: int, xn: int) -> int
    recommends
        xn - 2 * x + xp != 0,
{
    xp - tdiv((x - xp) * (x - xp), xn - 2 * x + xp)
}

/// The abstract state of a polishing solver: the algorithm, whether `set`
/// has initialised it, the current estimate, the retained previous estimate
/// with its sample, how many estimates have been retained (saturating at
/// two), and the near-zero denominator cutoff chosen at construction.
pub struct PolishModel {
    pub kind: RootFdfSolverType,
    pub ready: bool,
    pub root: int,
    pub prev: int,
    pub f_prev: int,
    pub seen: int,
    pub cutoff: int,
}

impl PolishModel {
    /// The solver invariant.
    pub open spec fn wf(self) -> bool {
        &&& 0 <= self.seen <= 2
        &&& 0 <= self.cutoff
    }
}

/// Whether one polishing step from `m`, with sample `fx` and derivative
/// `dfx` at the current estimate, hits a zero or near-zero denominator.
pub open spec fn polish_degenerate(m: PolishModel, fx: int, dfx: int) -> bool {
    match m.kind {
        RootFdfSolverType::Newton => abs(dfx) <= m.cutoff,
        RootFdfSolverType::Secant => if m.seen == 0 {
            abs(dfx) <= m.cutoff
        } else {
            abs(fx - m.f_prev) <= m.cutoff
        },
        RootFdfSolverType::Steffenson => abs(dfx) <= m.cutoff,
    }
}

/// The exact new estimate a non-degenerate polishing step computes, before
/// the representability check.
pub open spec fn polish_new_root(m: PolishModel, fx: int, dfx: int) -> int {
    match m.kind {
        RootFdfSolverType::Newton => newton_next(m.root, fx, dfx),
        RootFdfSolverType::Secant => if m.seen == 0 {
            newton_next(m.root, fx, dfx)
        } else {
            secant_next(m.root, fx, m.prev, m.f_prev)
        },
        RootFdfSolverType::Steffenson => {
            let xn = newton_next(m.root, fx, dfx);
            if m.seen < 2 {
                xn
            } else {
                let v = xn - 2 * m.root + m.prev;
                if v == 0 {
                    xn
                } else {
                    aitken_accel(m.prev, m.root, xn)
                }
            }
        },
    }
}

/// The status one polishing step reports: `DerivativeDegenerate` on a
/// (near-)zero denominator, `DomainError` when the exact new estimate is
/// not representable as a coordinate, success otherwise.
pub open spec fn polish_result(m: PolishModel, fx: int, dfx: int) -> Result<(), SolverError> {
    if polish_degenerate(m, fx, dfx) {
        Err(SolverError::DerivativeDegenerate)
    } else if !in_i64(polish_new_root(m, fx, dfx)) {
        Err(SolverError::DomainError)
    } else {
        Ok(())
    }
}

/// The state after one polishing step: on success the new estimate is
/// adopted and the old one retained; on failure the state is unchanged, so
/// the caller never iterates on an invalid estimate.
pub open spec fn polish_step(m: PolishModel, fx: int, dfx: int) -> PolishModel {
    if polish_result(m, fx, dfx) is Ok {
        PolishModel {
            root: polish_new_root(m, fx, dfx),
            prev: m.root,
            f_prev: fx,
            seen: if m.seen < 2 {
                m.seen + 1
            } else {
                2
            },
            ..m
        }
    } else {
        m
    }
}

/// The name of a polishing algorithm, as `RootFdfSolver::name` reports it.
pub open spec fn fdfsolver_name(k: RootFdfSolverType) -> Seq<char> {
    match k {
        RootFdfSolverType::Newton => "newton"@,
        RootFdfSolverType::Secant => "secant"@,
        RootFdfSolverType::Steffenson => "steffenson"@,
    }
}

/// A polishing solver: one derivative-based algorithm together with its
/// current estimate and retained memory.
///
/// The caller protocol per step is: read [`RootFdfSolver::root`], evaluate
/// the function and its derivative there (the combined evaluation may serve
/// both), and hand the two values to [`RootFdfSolver::iterate`].
pub struct RootFdfSolver {
    kind: RootFdfSolverType,
    ready: bool,
    root: i64,
    prev: i64,
    f_prev: i64,
    seen: u8,
    cutoff: u64,
}

impl View for RootFdfSolver {
    type V = PolishModel;

    closed spec fn view(&self) -> PolishModel {
        PolishModel {
            kind: self.kind,
            ready: self.ready,
            root: self.root as int,
            prev: self.prev as int,
            f_prev: self.f_prev as int,
            seen: self.seen as int,
            cutoff: self.cutoff as int,
        }
    }
}

impl RootFdfSolver {
    /// Returns a freshly allocated solver of algorithm `t` with a zero
    /// denominator cutoff: only an exactly zero denominator is reported as
    /// degenerate.  `None` would report allocation failure; allocation here
    /// cannot fail, so the solver is always returned.
    pub fn new(t: &RootFdfSolverType) -> (r: Option<RootFdfSolver>)
        ensures
            r matches Some(s) && s@ == (PolishModel {
                kind: *t,
                ready: false,
                root: 0,
                prev: 0,
                f_prev: 0,
                seen: 0,
                cutoff: 0,
            }),
    {
        Self::new_with_cutoff(t, 0)
    }

    /// As [`RootFdfSolver::new`], with an explicit near-zero cutoff: a step
    /// whose denominator has magnitude at most `cutoff` is reported as
    /// degenerate instead of being divided through.
    pub fn new_with_cutoff(t: &RootFdfSolverType, cutoff: u64) -> (r: Option<RootFdfSolver>)
        ensures
            r matches Some(s) && s@ == (PolishModel {
                kind: *t,
                ready: false,
                root: 0,
                prev: 0,
                f_prev: 0,
                seen: 0,
                cutoff: cutoff as int,
            }),
    {
        Some(
            RootFdfSolver {
                kind: *t,
                ready: false,
                root: 0,
                prev: 0,
                f_prev: 0,
                seen: 0,
                cutoff,
            },
        )
    }

    /// Initialises, or reinitialises, the solver to polish from the initial
    /// guess `root`.  The seed is a plain coordinate, so the call cannot
    /// fail; retained memory from an earlier problem is discarded.
    pub fn set(&mut self, root: i64)
        ensures
            final(self)@ == (PolishModel {
                kind: old(self)@.kind,
                ready: true,
                root: root as int,
                prev: 0,
                f_prev: 0,
                seen: 0,
                cutoff: old(self)@.cutoff,
            }),
            final(self)@.wf(),
    {
        self.ready = true;
        self.root = root;
        self.prev = 0;
        self.f_prev = 0;
        self.seen = 0;
    }

    /// Performs a single iteration of the solver, with `f_root` and
    /// `df_root` the caller's function and derivative samples at the current
    /// estimate.  The same call drives every algorithm.
    ///
    /// A (near-)zero denominator is reported as `DerivativeDegenerate` and
    /// an unrepresentable new estimate as `DomainError`; in either case the
    /// state is left unchanged rather than propagating an invalid estimate.
    pub fn iterate(&mut self, f_root: i64, df_root: i64) -> (r: Result<(), SolverError>)
        requires
            old(self)@.wf(),
            old(self)@.ready,
        ensures
            r is Ok <==> polish_result(old(self)@, f_root as int, df_root as int) is Ok,
            r is Err ==> r->Err_0 == polish_result(old(self)@, f_root as int, df_root as int)->Err_0,
            final(self)@ == polish_step(old(self)@, f_root as int, df_root as int),
            final(self)@.wf(),
            final(self)@.ready,
            final(self)@.kind == old(self)@.kind,
            final(self)@.cutoff == old(self)@.cutoff,
    {
        match self.kind {
            RootFdfSolverType::Newton => {
                let q = match self.guarded_div(f_root, df_root) {
                    Ok(q) => q,
                    Err(e) => {
                        return Err(e);
                    },
                };
                self.adopt((self.root as i128) - q, f_root)
            },
            RootFdfSolverType::Secant => {
                if self.seen == 0 {
                    let q = match self.guarded_div(f_root, df_root) {
                        Ok(q) => q,
                        Err(e) => {
                            return Err(e);
                        },
                    };
                    self.adopt((self.root as i128) - q, f_root)
                } else {
                    let den: i128 = (f_root as i128) - (self.f_prev as i128);
                    let degenerate = if den >= 0 {
                        den <= self.cutoff as i128
                    } else {
                        -den <= self.cutoff as i128
                    };
                    if degenerate {
                        return Err(SolverError::DerivativeDegenerate);
                    }
                    let dx: i128 = (self.root as i128) - (self.prev as i128);
                    proof {
                        lemma_mul_bounds(
                            f_root as int,
                            dx as int,
                            0x8000_0000_0000_0000,
                            0xffff_ffff_ffff_ffff,
                        );
                    }
                    let num: i128 = (f_root as i128) * dx;
                    let q = div_trunc_i128(num, den);
                    proof {
                        crate::arith::lemma_tdiv_bound(num as int, den as int);
                    }
                    if q > 0x4_0000_0000_0000_0000 || q < -0x4_0000_0000_0000_0000 {
                        return Err(SolverError::DomainError);
                    }
                    self.adopt((self.root as i128) - q, f_root)
                }
            },
            RootFdfSolverType::Steffenson => {
                let q = match self.guarded_div(f_root, df_root) {
                    Ok(q) => q,
                    Err(e) => {
                        return Err(e);
                    },
                };
                let xn: i128 = (self.root as i128) - q;
                if self.seen < 2 {
                    self.adopt(xn, f_root)
                } else {
                    let v: i128 = xn - 2 * (self.root as i128) + (self.prev as i128);
                    if v == 0 {
                        self.adopt(xn, f_root)
                    } else {
                        let dx: i128 = (self.root as i128) - (self.prev as i128);
                        let dm: u128 = if dx >= 0 {
                            dx as u128
                        } else {
                            (-dx) as u128
                        };
                        proof {
                            lemma_mul_bounds(
                                dm as int,
                                dm as int,
                                0xffff_ffff_ffff_ffff,
                                0xffff_ffff_ffff_ffff,
                            );
                            assert((dm as int) * (dm as int) == (dx as int) * (dx as int))
                                by (nonlinear_arith)
                                requires
                                    dm as int == dx as int || dm as int == -(dx as int),
                            ;
                        }
                        let sq: u128 = dm * dm;
                        let vm: u128 = if v >= 0 {
                            v as u128
                        } else {
                            (-v) as u128
                        };
                        let qa: u128 = sq / vm;
                        proof {
                            lemma_div_pos_is_pos(sq as int, vm as int);
                            lemma_div_nonincreasing(sq as int, vm as int);
                        }
                        if qa > 0x1_0000_0000_0000_0000 {
                            return Err(SolverError::DomainError);
                        }
                        let acc: i128 = if v > 0 {
                            (self.prev as i128) - (qa as i128)
                        } else {
                            (self.prev as i128) + (qa as i128)
                        };
                        self.adopt(acc, f_root)
                    }
                }
            },
        }
    }

    /// The guarded Newton quotient `f / df`: degenerate when the derivative
    /// magnitude is at or below the cutoff.
    fn guarded_div(&self, fx: i64, dfx: i64) -> (r: Result<i128, SolverError>)
        ensures
            (r is Err <==> abs(dfx as int) <= self@.cutoff),
            r is Err ==> r == Err::<i128, SolverError>(SolverError::DerivativeDegenerate),
            r matches Ok(q) ==> q as int == tdiv(fx as int, dfx as int) && abs(q as int) <= abs(
                fx as int,
            ),
    {
        let dm: i128 = if dfx >= 0 {
            dfx as i128
        } else {
            -(dfx as i128)
        };
        if dm <= self.cutoff as i128 {
            return Err(SolverError::DerivativeDegenerate);
        }
        let q = div_trunc_i128(fx as i128, dfx as i128);
        proof {
            crate::arith::lemma_tdiv_bound(fx as int, dfx as int);
        }
        Ok(q)
    }

    /// Adopts `candidate` as the new estimate when it is representable,
    /// retaining the old estimate and its sample; reports `DomainError` and
    /// changes nothing otherwise.
    fn adopt(&mut self, candidate: i128, fx: i64) -> (r: Result<(), SolverError>)
        requires
            old(self)@.wf(),
            old(self)@.ready,
        ensures
            (r is Ok <==> in_i64(candidate as int)),
            !(r is Ok) ==> r == Err::<(), SolverError>(SolverError::DomainError) && *final(self)
                == *old(self),
            r is Ok ==> final(self)@ == (PolishModel {
                root: candidate as int,
                prev: old(self)@.root,
                f_prev: fx as int,
                seen: if old(self)@.seen < 2 {
                    old(self)@.seen + 1
                } else {
                    2
                },
                ..old(self)@
            }),
            final(self)@.wf(),
    {
        if candidate < i64::MIN as i128 || candidate > i64::MAX as i128 {
            return Err(SolverError::DomainError);
        }
        self.prev = self.root;
        self.f_prev = fx;
        self.root = candidate as i64;
        if self.seen < 2 {
            self.seen = self.seen + 1;
        }
        Ok(())
    }

    /// The algorithm's name: `"newton"`, `"secant"` or `"steffenson"`.
    pub fn name(&self) -> (r: Option<&str>)
        ensures
            r matches Some(s) && s@ == fdfsolver_name(self@.kind),
    {
        match self.kind {
            RootFdfSolverType::Newton => Some("newton"),
            RootFdfSolverType::Secant => Some("secant"),
            RootFdfSolverType::Steffenson => Some("steffenson"),
        }
    }

    /// Whether `set` has initialised the solver.
    pub fn is_ready(&self) -> (b: bool)
        ensures
            b == self@.ready,
    {
        self.ready
    }

    /// The current best estimate of the root.  A pure read: calling it any
    /// number of times between iterations returns the same value.
    pub fn root(&self) -> (r: i64)
        requires
            self@.ready,
        ensures
            r as int == self@.root,
    {
        self.root
    }
}

} // verus!
