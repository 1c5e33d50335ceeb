//! The iterated update.
//!
//! A measurement is linearized at the estimate, the estimate is moved, and so on
//! until the step is small, the residual rises, or the iterations are used up.

use vstd::prelude::*;

use crate::algebra::{
    apply_inverse, entries, inverse_of, inverts, is, nothing, ring, sum_of, unit, Ring,
};
use crate::arith::{
    apply_length, apply_one, apply_two, binary, length_of, lengths, of_one, of_two, unary,
};
use crate::double::Double;
use crate::matrix::Matrix;
use crate::void_esikf::gain::{corrected, correction, cov_update, shrunk};
use crate::void_types::state::{part, separates, turns, State, DIM_STATE};

verus! {

/// A measurement that can be linearized at a state.
pub trait MeasurementModel {
    /// The number of rows; zero if there is nothing to use.
    fn dim(&self) -> usize;

    /// What the linearization at a state says.
    fn information(&self, x: &State) -> Information;
}

/// No measurement: there is nothing to use.
impl MeasurementModel for () {
    fn dim(&self) -> (n: usize)
        ensures
            n == 0,
    {
        0
    }

    fn information(&self, x: &State) -> (info: Information)
        ensures
            info.fits(),
            is(&info.s, DIM_STATE as int, DIM_STATE as int, nothing()),
            forall|i: int| 0 <= i < DIM_STATE ==> #[trigger] info.b@[i] == (Double { bits: 0 }),
            info.e == (Double { bits: 0 }),
    {
        nothing_said()
    }
}

/// Why an update failed.
#[derive(Clone, Copy, Debug, PartialEq, Eq, Structural)]
pub enum UpdateError {
    /// The prior covariance cannot be inverted.
    PriorSingular,
    /// The sum of information and inverse covariance cannot be inverted.
    InformationSingular,
    /// The residual is not a number, in this iteration.
    NotANumber(usize),
    /// The residual grew beyond all measure.
    Diverged,
    /// The measurement does not speak of the whole error.
    WrongShape,
}

/// When an update stops, and what it accepts.
#[derive(Clone, Copy, Debug, PartialEq, Eq, Structural)]
pub struct EskfUpdater {
    /// The most iterations.
    pub max_iterations: usize,
    /// The turn (rad) below which a step counts as small.
    pub rot_eps: Double,
    /// The move (m) below which a step counts as small.
    pub pos_eps: Double,
    /// How many times the first residual is too much.
    pub divergence_factor: Double,
    /// Go back to the last accepted estimate once the residual rises.
    pub accept_on_error_descent: bool,
}

/// The default divergence factor: a million.
pub const DIVERGENCE_FACTOR: u64 = 0x412E_8480_0000_0000;

/// The small turn (rad) and move (m) of a depth update: 0.01 / 57.3 and 0.015 / 100.
pub fn depth_convergence() -> (c: (Double, Double))
    ensures
        c.0.bits == 0x3F26_DFEB_FC11_8371,
        c.1.bits == 0x3F23_A92A_3055_3261,
{
    (Double { bits: 0x3F26_DFEB_FC11_8371 }, Double { bits: 0x3F23_A92A_3055_3261 })
}

/// The small turn (rad) and move (m) of a visual update: 0.001 / 57.3 and 0.001 / 100.
pub fn visual_convergence() -> (c: (Double, Double))
    ensures
        c.0.bits == 0x3EF2_4CBC_C9A7_9C5B,
        c.1.bits == 0x3EE4_F8B5_88E3_68F1,
{
    (Double { bits: 0x3EF2_4CBC_C9A7_9C5B }, Double { bits: 0x3EE4_F8B5_88E3_68F1 })
}

/// The course of an update: the inverse of the prior covariance, what the measurement
/// says at the prior, the estimates one after another, and what it says at each.
pub struct Course {
    /// The inverse of the prior covariance.
    pub p_inv: Matrix,
    /// What the measurement says at the prior.
    pub first: Information,
    /// The estimates.
    pub xs: Seq<State>,
    /// What the measurement says at each.
    pub infos: Seq<Information>,
}

/// The functions that an update is made of.
pub struct Tools<N, R, L, U, G, P, M, T> {
    /// Inverts a matrix.
    pub invert: N,
    /// The square root.
    pub root: R,
    /// The length of a vector.
    pub length: L,
    /// Turns a rotation by a vector.
    pub turn: U,
    /// The vector between two rotations.
    pub log: G,
    /// Addition.
    pub plus: P,
    /// Subtraction.
    pub minus: M,
    /// Multiplication.
    pub times: T,
}

impl<
    N: Fn(&Matrix) -> Option<Matrix>,
    R: Fn(Double) -> Double,
    L: Fn([Double; 3]) -> Double,
    U: Fn([Double; 9], [Double; 3]) -> [Double; 9],
    G: Fn([Double; 9], [Double; 9]) -> [Double; 3],
    P: Fn(Double, Double) -> Double,
    M: Fn(Double, Double) -> Double,
    T: Fn(Double, Double) -> Double,
> Tools<N, R, L, U, G, P, M, T> {
    /// Whether the functions always have one result.
    pub open spec fn wf(&self) -> bool {
        &&& inverts(self.invert)
        &&& unary(self.root)
        &&& lengths(self.length)
        &&& turns(self.turn)
        &&& separates(self.log)
        &&& binary(self.plus)
        &&& binary(self.minus)
        &&& binary(self.times)
    }

    /// Addition and multiplication.
    pub open spec fn op(&self) -> Ring {
        ring(self.plus, self.times)
    }

    /// The norm of the weighted residual.
    pub open spec fn norm(&self, info: Information) -> Double {
        of_one(self.root, info.e)
    }

    /// The inverse of the information of a measurement and of the prior together.
    pub open spec fn whole_inverse(&self, s: &Matrix, p_inv: &Matrix) -> Option<Matrix> {
        inverse_of(self.invert, DIM_STATE as int, sum_of(entries(s), entries(p_inv), self.op()))
    }

    /// Whether a step leads from an estimate to the next: against what the measurement
    /// says, and back to the prior where the measurement does not see.
    pub open spec fn stepped(
        &self,
        x: &State,
        prior: &State,
        p_inv: &Matrix,
        info: Information,
        next: &State,
    ) -> bool {
        &&& self.whole_inverse(&info.s, p_inv) is Some
        &&& x.moved(
            corrected(
                entries(&self.whole_inverse(&info.s, p_inv)->0),
                entries(&info.s),
                info.b@,
                x.spec_boxminus(prior, self.log, self.minus),
                self.op(),
            ),
            self.turn,
            self.plus,
            next,
        )
    }

    /// Whether the step from an estimate to the next is small.
    pub open spec fn small(&self, u: EskfUpdater, x: &State, next: &State) -> bool {
        let e = next.spec_boxminus(x, self.log, self.minus);
        &&& length_of(self.length, part(e, 0)).spec_lt(u.rot_eps)
        &&& length_of(self.length, part(e, 3)).spec_lt(u.pos_eps)
    }

    /// Whether a state is an estimate with the covariance that the last linearization
    /// leaves of the prior one.
    pub open spec fn finished(
        &self,
        x: &State,
        prior: &State,
        p_inv: &Matrix,
        s: &Matrix,
        after: &State,
    ) -> bool {
        let inv = match self.whole_inverse(s, p_inv) {
            Some(m) => entries(&m),
            None => unit(),
        };
        &&& *after == (State { cov: after.cov, ..*x })
        &&& is(
            &after.cov,
            DIM_STATE as int,
            DIM_STATE as int,
            shrunk(entries(&prior.cov), inv, entries(s), self.op()),
        )
    }

    /// Whether the residual rises at reading `k` above the one before, where that ends
    /// the update.
    pub open spec fn rises(&self, u: EskfUpdater, c: Course, k: int) -> bool {
        u.accept_on_error_descent && k > 0 && self.norm(c.infos[k - 1]).spec_lt(
            self.norm(c.infos[k]),
        )
    }

    /// Whether the residual at reading `k` is too many times the first.
    pub open spec fn diverges(&self, u: EskfUpdater, c: Course, k: int) -> bool {
        &&& (Double { bits: 0 }).spec_lt(self.norm(c.first))
        &&& of_two(self.times, u.divergence_factor, self.norm(c.first)).spec_lt(
            self.norm(c.infos[k]),
        )
    }

    /// Whether reading `k` lets the update go on.
    pub open spec fn goes_on(&self, u: EskfUpdater, c: Course, k: int) -> bool {
        &&& c.infos[k].fits()
        &&& !self.norm(c.infos[k]).spec_is_nan()
        &&& !self.rises(u, c, k)
        &&& !self.diverges(u, c, k)
    }

    /// Whether iteration `k` goes on to another.
    pub open spec fn iterates(&self, u: EskfUpdater, prior: &State, c: Course, k: int) -> bool {
        &&& self.goes_on(u, c, k)
        &&& self.stepped(&c.xs[k], prior, &c.p_inv, c.infos[k], &c.xs[k + 1])
        &&& !self.small(u, &c.xs[k], &c.xs[k + 1])
    }

    /// Whether a course is that of a measurement: it starts at the prior, the
    /// measurement is read at each estimate, and all iterations but the last go on.
    pub open spec fn runs<D: MeasurementModel>(
        &self,
        u: EskfUpdater,
        model: &D,
        prior: &State,
        c: Course,
    ) -> bool {
        let n = c.infos.len() as int;
        &&& call_ensures(D::information, (model, prior), c.first)
        &&& c.first.fits()
        &&& inverse_of(self.invert, DIM_STATE as int, entries(&prior.cov)) is Some
        &&& is(
            &c.p_inv,
            DIM_STATE as int,
            DIM_STATE as int,
            entries(&inverse_of(self.invert, DIM_STATE as int, entries(&prior.cov))->0),
        )
        &&& n <= u.max_iterations
        &&& n <= c.xs.len() <= n + 1
        &&& 0 < c.xs.len() && c.xs[0].alike(prior)
        &&& forall|k: int|
            0 <= k < n ==> call_ensures(D::information, (model, &c.xs[k]), #[trigger] c.infos[k])
        &&& forall|k: int| 0 <= k < n - 1 ==> #[trigger] self.iterates(u, prior, c, k)
    }

    /// Whether a course comes to a result and a state. At an error the state is the
    /// prior one.
    pub open spec fn ends(
        &self,
        u: EskfUpdater,
        prior: &State,
        c: Course,
        s: &Matrix,
        after: &State,
        result: Result<(usize, bool), UpdateError>,
    ) -> bool {
        let n = c.infos.len() as int;
        let last = c.infos[n - 1];
        match result {
            Ok((count, true)) => {
                &&& n > 0 && c.xs.len() == n + 1 && count == n
                &&& self.goes_on(u, c, n - 1)
                &&& self.stepped(&c.xs[n - 1], prior, &c.p_inv, last, &c.xs[n])
                &&& self.small(u, &c.xs[n - 1], &c.xs[n])
                &&& *s == last.s
                &&& self.finished(&c.xs[n], prior, &c.p_inv, s, after)
            },
            Ok((count, false)) => {
                &&& count == u.max_iterations
                &&& if n > 0 && c.infos[n - 1].fits() && !self.norm(last).spec_is_nan() && self.rises(
                    u,
                    c,
                    n - 1,
                ) {
                    &&& *s == c.infos[n - 2].s
                    &&& self.finished(&c.xs[n - 2], prior, &c.p_inv, s, after)
                } else {
                    &&& n == u.max_iterations && c.xs.len() == n + 1
                    &&& n > 0 ==> self.iterates(u, prior, c, n - 1) && *s == last.s
                    &&& n == 0 ==> is(s, DIM_STATE as int, DIM_STATE as int, nothing())
                    &&& self.finished(&c.xs[n], prior, &c.p_inv, s, after)
                }
            },
            Err(UpdateError::NotANumber(k)) => {
                &&& n > 0 && k == n - 1
                &&& last.fits() && self.norm(last).spec_is_nan()
                &&& *after == *prior
            },
            Err(UpdateError::Diverged) => {
                &&& n > 0 && last.fits() && !self.norm(last).spec_is_nan()
                &&& !self.rises(u, c, n - 1) && self.diverges(u, c, n - 1)
                &&& *after == *prior
            },
            Err(UpdateError::InformationSingular) => {
                &&& n > 0 && self.goes_on(u, c, n - 1)
                &&& self.whole_inverse(&last.s, &c.p_inv) is None
                &&& *after == *prior
            },
            Err(UpdateError::WrongShape) => n > 0 && !last.fits() && *after == *prior,
            Err(UpdateError::PriorSingular) => false,
        }
    }

    /// What an update with a measurement that has rows comes to.
    pub open spec fn updated<D: MeasurementModel>(
        &self,
        u: EskfUpdater,
        model: &D,
        prior: &State,
        c: Course,
        s: &Matrix,
        after: &State,
        result: Result<(usize, bool), UpdateError>,
    ) -> bool {
        if call_ensures(D::information, (model, prior), c.first) && !c.first.fits() {
            result == Err::<(usize, bool), UpdateError>(UpdateError::WrongShape) && *after == *prior
        } else if inverse_of(self.invert, DIM_STATE as int, entries(&prior.cov)) is None {
            &&& call_ensures(D::information, (model, prior), c.first)
            &&& result == Err::<(usize, bool), UpdateError>(UpdateError::PriorSingular)
            &&& *after == *prior
        } else {
            self.runs(u, model, prior, c) && self.ends(u, prior, c, s, after, result)
        }
    }

    /// A step from an estimate; none where the information has no inverse.
    fn step(&self, x: &State, prior: &State, p_inv: &Matrix, info: &Information) -> (next: Option<
        State,
    >)
        requires
            self.wf(),
            x.wf(),
            info.fits(),
            p_inv.shaped(DIM_STATE as int, DIM_STATE as int),
        ensures
            match next {
                None => self.whole_inverse(&info.s, p_inv) is None,
                Some(y) => y.wf() && self.stepped(x, prior, p_inv, *info, &y),
            },
    {
        let delta = x.boxminus(prior, &self.log, &self.minus);
        let gain = correction(
            &info.s,
            &info.b,
            p_inv,
            &delta,
            &self.invert,
            &self.plus,
            &self.times,
        );
        match gain {
            None => None,
            Some(c) => Some(x.boxplus(&c, &self.turn, &self.plus)),
        }
    }

    /// Whether the step from an estimate to the next is small.
    fn is_small(&self, u: &EskfUpdater, x: &State, next: &State) -> (yes: bool)
        requires
            self.wf(),
        ensures
            yes == self.small(*u, x, next),
    {
        let e = next.boxminus(x, &self.log, &self.minus);
        let rot = [e[0], e[1], e[2]];
        let pos = [e[3], e[4], e[5]];
        assert(rot@ =~= part(e@, 0));
        assert(pos@ =~= part(e@, 3));
        apply_length(&self.length, rot).lt(u.rot_eps) && apply_length(&self.length, pos).lt(
            u.pos_eps,
        )
    }

    /// An estimate with the covariance that the last linearization leaves of the prior
    /// one.
    fn finish(&self, x: State, prior: &State, p_inv: &Matrix, s: &Matrix) -> (after: State)
        requires
            self.wf(),
            prior.wf(),
            s.shaped(DIM_STATE as int, DIM_STATE as int),
            p_inv.shaped(DIM_STATE as int, DIM_STATE as int),
        ensures
            after.wf(),
            self.finished(&x, prior, p_inv, s, &after),
    {
        let cov = cov_update(&prior.cov, s, p_inv, &self.invert, &self.plus, &self.times);
        State { cov, ..x }
    }
}

impl EskfUpdater {
    /// At most `max_iterations` iterations, until the step is below the given turn
    /// and move. A rising residual is accepted, a millionfold one is not.
    pub fn new(max_iterations: usize, convergence: (Double, Double)) -> (u: EskfUpdater)
        ensures
            u == (EskfUpdater {
                max_iterations,
                rot_eps: convergence.0,
                pos_eps: convergence.1,
                divergence_factor: Double { bits: DIVERGENCE_FACTOR },
                accept_on_error_descent: false,
            }),
    {
        EskfUpdater {
            max_iterations,
            rot_eps: convergence.0,
            pos_eps: convergence.1,
            divergence_factor: Double { bits: DIVERGENCE_FACTOR },
            accept_on_error_descent: false,
        }
    }

    /// With another divergence factor.
    pub fn with_divergence_factor(self, factor: Double) -> (u: EskfUpdater)
        ensures
            u == (EskfUpdater { divergence_factor: factor, ..self }),
    {
        EskfUpdater { divergence_factor: factor, ..self }
    }

    /// Stopping once the residual rises.
    pub fn with_error_descent_acceptance(self) -> (u: EskfUpdater)
        ensures
            u == (EskfUpdater { accept_on_error_descent: true, ..self }),
    {
        EskfUpdater { accept_on_error_descent: true, ..self }
    }

    /// Updates a state with a measurement: the number of iterations, and whether the
    /// step became small. A measurement without rows and an error leave the state as
    /// it is.
    pub fn update<
        D: MeasurementModel,
        N: Fn(&Matrix) -> Option<Matrix>,
        R: Fn(Double) -> Double,
        L: Fn([Double; 3]) -> Double,
        U: Fn([Double; 9], [Double; 3]) -> [Double; 9],
        G: Fn([Double; 9], [Double; 9]) -> [Double; 3],
        P: Fn(Double, Double) -> Double,
        M: Fn(Double, Double) -> Double,
        T: Fn(Double, Double) -> Double,
    >(&self, model: &D, state: &mut State, tools: &Tools<N, R, L, U, G, P, M, T>) -> (result: Result<
        (usize, bool),
        UpdateError,
    >)
        requires
            old(state).wf(),
            tools.wf(),
        ensures
            final(state).wf(),
            exists|rows: usize| #[trigger]
                call_ensures(D::dim, (model,), rows) && if rows == 0 {
                    result == Ok::<(usize, bool), UpdateError>((0, false)) && *final(state) == *old(
                        state,
                    )
                } else {
                    exists|c: Course, s: Matrix| #[trigger]
                        tools.updated(*self, model, old(state), c, &s, final(state), result)
                },
            result is Ok ==> result->Ok_0.0 <= self.max_iterations,
    {
        let rows: usize = model.dim();
        if rows == 0 {
            return Ok((0, false));
        }
        let first = model.information(state);
        let ghost mut c = Course { p_inv: state.cov, first, xs: seq![], infos: seq![] };
        if !first.is_fit() {
            let result = Err(UpdateError::WrongShape);
            assert(tools.updated(*self, model, old(state), c, &state.cov, state, result));
            return result;
        }
        let inverse = apply_inverse(&state.cov, &tools.invert, Ghost(entries(&state.cov)));
        let p_inv = match inverse {
            Some(v) => v,
            None => {
                let result = Err(UpdateError::PriorSingular);
                assert(tools.updated(*self, model, old(state), c, &state.cov, state, result));
                return result;
            },
        };
        let first_norm = apply_one(&tools.root, first.e);
        let bound = apply_two(&tools.times, self.divergence_factor, first_norm);
        let mut x: State = state.clone();
        proof {
            c = Course { p_inv, first, xs: seq![x], infos: seq![] };
        }
        let mut prev: Option<State> = None;
        let mut last_norm: Option<Double> = None;
        let mut last_s: Matrix = Matrix::filled(DIM_STATE, DIM_STATE, Double::zero());
        let mut k: usize = 0;
        while k < self.max_iterations
            invariant
                k <= self.max_iterations,
                rows > 0,
                call_ensures(D::dim, (model,), rows),
                *state == *old(state),
                state.wf(),
                tools.wf(),
                x.wf(),
                p_inv.shaped(DIM_STATE as int, DIM_STATE as int),
                c.p_inv == p_inv,
                c.infos.len() == k,
                c.xs.len() == k + 1,
                c.xs[k as int] == x,
                first_norm == tools.norm(c.first),
                bound == of_two(tools.times, self.divergence_factor, first_norm),
                tools.runs(*self, model, state, c),
                k > 0 ==> tools.iterates(*self, state, c, k - 1),
                k == 0 ==> prev is None && last_norm is None && is(
                    &last_s,
                    DIM_STATE as int,
                    DIM_STATE as int,
                    nothing(),
                ),
                k > 0 ==> prev == Some(c.xs[k - 1]) && last_norm == Some(
                    tools.norm(c.infos[k - 1]),
                ) && last_s == c.infos[k - 1].s,
                last_s.shaped(DIM_STATE as int, DIM_STATE as int),
                prev matches Some(y) ==> y.wf(),
            decreases self.max_iterations - k,
        {
            let ghost before = c;
            let info = model.information(&x);
            proof {
                c = Course { infos: before.infos.push(info), ..before };
                assert forall|q: int| 0 <= q < k implies #[trigger] tools.iterates(
                    *self,
                    state,
                    c,
                    q,
                ) by {
                    assert(tools.iterates(*self, state, before, q));
                    assert(c.infos[q] == before.infos[q]);
                    if q > 0 {
                        assert(c.infos[q - 1] == before.infos[q - 1]);
                    }
                }
                assert forall|q: int| 0 <= q < k + 1 implies call_ensures(
                    D::information,
                    (model, &c.xs[q]),
                    #[trigger] c.infos[q],
                ) by {
                    if q < k {
                        assert(c.infos[q] == before.infos[q]);
                    }
                }
                assert(tools.runs(*self, model, state, c));
            }
            if !info.is_fit() {
                let result = Err(UpdateError::WrongShape);
                assert(tools.updated(*self, model, old(state), c, &last_s, state, result));
                return result;
            }
            let norm = apply_one(&tools.root, info.e);
            if norm.is_nan() {
                let result = Err(UpdateError::NotANumber(k));
                assert(tools.updated(*self, model, old(state), c, &last_s, state, result));
                return result;
            }
            let risen = match last_norm {
                Some(n) => self.accept_on_error_descent && n.lt(norm),
                None => false,
            };
            assert(risen == tools.rises(*self, c, k as int)) by {
                if k > 0 {
                    assert(c.infos[k - 1] == before.infos[k - 1]);
                }
            }
            if risen {
                if let Some(y) = prev {
                    let after = tools.finish(y, state, &p_inv, &last_s);
                    let result = Ok((self.max_iterations, false));
                    proof {
                        assert(c.infos[k - 1] == before.infos[k - 1]);
                        assert(tools.updated(
                            *self,
                            model,
                            old(state),
                            c,
                            &last_s,
                            &after,
                            result,
                        ));
                    }
                    *state = after;
                    return result;
                }
            }
            if Double::zero().lt(first_norm) && bound.lt(norm) {
                let result = Err(UpdateError::Diverged);
                assert(tools.updated(*self, model, old(state), c, &last_s, state, result));
                return result;
            }
            assert(tools.goes_on(*self, c, k as int));
            let next = match tools.step(&x, state, &p_inv, &info) {
                Some(next) => next,
                None => {
                    let result = Err(UpdateError::InformationSingular);
                    assert(tools.updated(*self, model, old(state), c, &last_s, state, result));
                    return result;
                },
            };
            let ghost read = c;
            proof {
                c = Course { xs: read.xs.push(next), ..read };
                assert(c.xs[k as int] == x && c.xs[k + 1] == next);
                assert forall|q: int| 0 <= q < k implies #[trigger] tools.iterates(
                    *self,
                    state,
                    c,
                    q,
                ) by {
                    assert(tools.iterates(*self, state, read, q));
                    assert(c.xs[q] == read.xs[q] && c.xs[q + 1] == read.xs[q + 1]);
                }
                assert forall|q: int| 0 <= q < k + 1 implies call_ensures(
                    D::information,
                    (model, &c.xs[q]),
                    #[trigger] c.infos[q],
                ) by {
                    assert(c.xs[q] == read.xs[q]);
                }
                assert(tools.runs(*self, model, state, c));
                assert(tools.goes_on(*self, c, k as int));
            }
            if tools.is_small(self, &x, &next) {
                let after = tools.finish(next, state, &p_inv, &info.s);
                let result = Ok((k + 1, true));
                assert(tools.updated(*self, model, old(state), c, &info.s, &after, result));
                *state = after;
                return result;
            }
            assert(tools.iterates(*self, state, c, k as int));
            prev = Some(x);
            x = next;
            last_norm = Some(norm);
            last_s = info.s;
            k += 1;
        }
        let after = tools.finish(x, state, &p_inv, &last_s);
        let result = Ok((self.max_iterations, false));
        assert(tools.updated(*self, model, old(state), c, &last_s, &after, result));
        *state = after;
        result
    }
}

/// Whether the rows of a linearization with this variance count.
pub open spec fn informative(r: Double, r_inv: Double) -> bool {
    &&& (Double { bits: 0 }).spec_lt(r)
    &&& r.spec_is_finite()
    &&& !(r_inv.spec_le(Double { bits: 0 }) && (Double { bits: 0 }).spec_le(r_inv))
}

/// The operations from which a linearization is summed up.
pub struct Sums {
    /// Addition.
    pub plus: spec_fn(Double, Double) -> Double,
    /// Multiplication.
    pub times: spec_fn(Double, Double) -> Double,
    /// One over a number.
    pub inverse: spec_fn(Double) -> Double,
}

/// The operations that a caller handed in.
pub open spec fn sums<
    P: Fn(Double, Double) -> Double,
    T: Fn(Double, Double) -> Double,
    V: Fn(Double) -> Double,
>(plus: P, times: T, inverse: V) -> Sums {
    Sums {
        plus: |a: Double, b: Double| of_two(plus, a, b),
        times: |a: Double, b: Double| of_two(times, a, b),
        inverse: |a: Double| of_one(inverse, a),
    }
}

/// The sum, over the first `n` rows that count, of the product of two factors of
/// a row with its inverse variance.
pub open spec fn weighted(
    f: spec_fn(int) -> Double,
    g: spec_fn(int) -> Double,
    r: Seq<Double>,
    op: Sums,
    n: int,
) -> Double
    decreases n,
{
    if n <= 0 {
        Double { bits: 0 }
    } else {
        let rest = weighted(f, g, r, op, n - 1);
        let r_inv = (op.inverse)(r[n - 1]);
        if informative(r[n - 1], r_inv) {
            (op.plus)(rest, (op.times)((op.times)(f(n - 1), g(n - 1)), r_inv))
        } else {
            rest
        }
    }
}

/// A linearization in sum: information matrix, information vector, and the
/// weighted square of the residual.
#[derive(Debug)]
pub struct Information {
    /// The information matrix.
    pub s: Matrix,
    /// The information vector.
    pub b: Vec<Double>,
    /// The weighted square of the residual.
    pub e: Double,
}

impl Information {
    /// Whether it speaks of the whole error.
    pub open spec fn fits(&self) -> bool {
        self.s.shaped(DIM_STATE as int, DIM_STATE as int) && self.b@.len() == DIM_STATE
    }

    /// Whether it speaks of the whole error.
    fn is_fit(&self) -> (yes: bool)
        ensures
            yes == self.fits(),
    {
        self.s.is_shaped(DIM_STATE, DIM_STATE) && self.b.len() == DIM_STATE
    }
}

/// An information that says nothing.
fn nothing_said() -> (info: Information)
    ensures
        info.fits(),
        is(&info.s, DIM_STATE as int, DIM_STATE as int, nothing()),
        forall|i: int| 0 <= i < DIM_STATE ==> #[trigger] info.b@[i] == (Double { bits: 0 }),
        info.e == (Double { bits: 0 }),
{
    let zero = Double::zero();
    Information {
        s: Matrix::filled(DIM_STATE, DIM_STATE, zero),
        b: vec![
            zero, zero, zero, zero, zero, zero, zero, zero, zero, zero, zero, zero, zero, zero,
            zero, zero, zero, zero, zero,
        ],
        e: zero,
    }
}

/// The factors of a column: its entries, row by row.
pub open spec fn column(h: &Matrix, j: int) -> spec_fn(int) -> Double {
    |i: int| h.at(i, j)
}

/// The residual, row by row.
pub open spec fn rows_of(z: Seq<Double>) -> spec_fn(int) -> Double {
    |i: int| z[i]
}

/// Whether an information sums up the first `n` rows.
pub open spec fn sums_up(
    info: &Information,
    z: Seq<Double>,
    h: &Matrix,
    r: Seq<Double>,
    op: Sums,
    n: int,
) -> bool {
    &&& info.s.shaped(DIM_STATE as int, DIM_STATE as int)
    &&& info.b@.len() == DIM_STATE
    &&& forall|a: int, c: int|
        info.s.has(a, c) ==> #[trigger] info.s.at(a, c) == weighted(
            column(h, a),
            column(h, c),
            r,
            op,
            n,
        )
    &&& forall|a: int|
        0 <= a < DIM_STATE ==> #[trigger] info.b@[a] == weighted(
            column(h, a),
            rows_of(z),
            r,
            op,
            n,
        )
    &&& info.e == weighted(rows_of(z), rows_of(z), r, op, n)
}

/// Sums up residual, derivatives and variances, row by row. Rows whose variance
/// is not a positive finite number are left out.
pub fn information<
    P: Fn(Double, Double) -> Double,
    T: Fn(Double, Double) -> Double,
    V: Fn(Double) -> Double,
>(z: &Vec<Double>, h: &Matrix, r: &Vec<Double>, plus: &P, times: &T, inverse: &V) -> (info:
    Information)
    requires
        h.shaped(z@.len() as int, DIM_STATE as int),
        r@.len() == z@.len(),
        binary(*plus),
        binary(*times),
        unary(*inverse),
    ensures
        sums_up(&info, z@, h, r@, sums(*plus, *times, *inverse), z@.len() as int),
{
    let ghost op = sums(*plus, *times, *inverse);
    let mut info = nothing_said();
    let n: usize = z.len();
    let mut i: usize = 0;
    while i < n
        invariant
            i <= n,
            n == z@.len(),
            h.shaped(n as int, DIM_STATE as int),
            r@.len() == n,
            binary(*plus),
            binary(*times),
            unary(*inverse),
            op == sums(*plus, *times, *inverse),
            sums_up(&info, z@, h, r@, op, i as int),
        decreases n - i,
    {
        let ri = r[i];
        let r_inv = apply_one(inverse, ri);
        let counts = Double::zero().lt(ri) && ri.is_finite() && !(r_inv.le(Double::zero())
            && Double::zero().le(r_inv));
        assert(counts == informative(r@[i as int], (op.inverse)(r@[i as int])));
        if counts {
            add_row(&mut info, z, h, r, i, r_inv, plus, times, inverse);
        }
        i += 1;
    }
    info
}

/// Adds a row that counts.
fn add_row<
    P: Fn(Double, Double) -> Double,
    T: Fn(Double, Double) -> Double,
    V: Fn(Double) -> Double,
>(
    info: &mut Information,
    z: &Vec<Double>,
    h: &Matrix,
    r: &Vec<Double>,
    i: usize,
    r_inv: Double,
    plus: &P,
    times: &T,
    inverse: &V,
)
    requires
        i < z@.len(),
        h.shaped(z@.len() as int, DIM_STATE as int),
        r@.len() == z@.len(),
        binary(*plus),
        binary(*times),
        unary(*inverse),
        r_inv == of_one(*inverse, r@[i as int]),
        informative(r@[i as int], r_inv),
        sums_up(old(info), z@, h, r@, sums(*plus, *times, *inverse), i as int),
    ensures
        sums_up(final(info), z@, h, r@, sums(*plus, *times, *inverse), i + 1),
{
    let ghost op = sums(*plus, *times, *inverse);
    let zi = z[i];
    let mut a: usize = 0;
    while a < DIM_STATE
        invariant
            a <= DIM_STATE,
            i < z@.len(),
            zi == z@[i as int],
            h.shaped(z@.len() as int, DIM_STATE as int),
            r@.len() == z@.len(),
            binary(*plus),
            binary(*times),
            op == sums(*plus, *times, *inverse),
            r_inv == (op.inverse)(r@[i as int]),
            informative(r@[i as int], r_inv),
            info.s.shaped(DIM_STATE as int, DIM_STATE as int),
            info.b@.len() == DIM_STATE,
            info.e == weighted(rows_of(z@), rows_of(z@), r@, op, i as int),
            forall|k: int, l: int|
                info.s.has(k, l) ==> #[trigger] info.s.at(k, l) == weighted(
                    column(h, k),
                    column(h, l),
                    r@,
                    op,
                    if k < a {
                        i + 1
                    } else {
                        i as int
                    },
                ),
            forall|k: int|
                0 <= k < DIM_STATE ==> #[trigger] info.b@[k] == weighted(
                    column(h, k),
                    rows_of(z@),
                    r@,
                    op,
                    if k < a {
                        i + 1
                    } else {
                        i as int
                    },
                ),
        decreases DIM_STATE - a,
    {
        let ha = h.get(i, a);
        let mut c: usize = 0;
        while c < DIM_STATE
            invariant
                a < DIM_STATE,
                c <= DIM_STATE,
                i < z@.len(),
                h.shaped(z@.len() as int, DIM_STATE as int),
                r@.len() == z@.len(),
                ha == h.at(i as int, a as int),
                binary(*plus),
                binary(*times),
                op == sums(*plus, *times, *inverse),
                r_inv == (op.inverse)(r@[i as int]),
                informative(r@[i as int], r_inv),
                info.s.shaped(DIM_STATE as int, DIM_STATE as int),
                info.b@.len() == DIM_STATE,
                info.e == weighted(rows_of(z@), rows_of(z@), r@, op, i as int),
                forall|k: int, l: int|
                    info.s.has(k, l) ==> #[trigger] info.s.at(k, l) == weighted(
                        column(h, k),
                        column(h, l),
                        r@,
                        op,
                        if k < a || (k == a && l < c) {
                            i + 1
                        } else {
                            i as int
                        },
                    ),
                forall|k: int|
                    0 <= k < DIM_STATE ==> #[trigger] info.b@[k] == weighted(
                        column(h, k),
                        rows_of(z@),
                        r@,
                        op,
                        if k < a {
                            i + 1
                        } else {
                            i as int
                        },
                    ),
            decreases DIM_STATE - c,
        {
            let product = apply_two(times, ha, h.get(i, c));
            let term = apply_two(times, product, r_inv);
            let sum = apply_two(plus, info.s.get(a, c), term);
            assert(sum == weighted(
                column(h, a as int),
                column(h, c as int),
                r@,
                op,
                i + 1,
            ));
            info.s.set(a, c, sum);
            c += 1;
        }
        let term = apply_two(times, apply_two(times, ha, zi), r_inv);
        let sum = apply_two(plus, info.b[a], term);
        assert(sum == weighted(column(h, a as int), rows_of(z@), r@, op, i + 1));
        info.b.set(a, sum);
        a += 1;
    }
    let term = apply_two(times, apply_two(times, zi, zi), r_inv);
    info.e = apply_two(plus, info.e, term);
}

/// Once the residual has risen, the update goes back to an estimate whose residual is
/// no larger than it was at the start.
pub proof fn law_descent_does_not_worsen<
    D: MeasurementModel,
    N: Fn(&Matrix) -> Option<Matrix>,
    R: Fn(Double) -> Double,
    L: Fn([Double; 3]) -> Double,
    U: Fn([Double; 9], [Double; 3]) -> [Double; 9],
    G: Fn([Double; 9], [Double; 9]) -> [Double; 3],
    P: Fn(Double, Double) -> Double,
    M: Fn(Double, Double) -> Double,
    T: Fn(Double, Double) -> Double,
>(
    u: EskfUpdater,
    tools: &Tools<N, R, L, U, G, P, M, T>,
    model: &D,
    prior: &State,
    c: Course,
)
    requires
        tools.runs(u, model, prior, c),
        c.infos.len() > 0,
        tools.rises(u, c, c.infos.len() - 1),
    ensures
        !tools.norm(c.infos[0]).spec_lt(tools.norm(c.infos[c.infos.len() - 2])),
{
    lemma_descent(u, tools, model, prior, c, c.infos.len() - 2);
}

/// Up to an iteration that goes on, the residual does not rise.
proof fn lemma_descent<
    D: MeasurementModel,
    N: Fn(&Matrix) -> Option<Matrix>,
    R: Fn(Double) -> Double,
    L: Fn([Double; 3]) -> Double,
    U: Fn([Double; 9], [Double; 3]) -> [Double; 9],
    G: Fn([Double; 9], [Double; 9]) -> [Double; 3],
    P: Fn(Double, Double) -> Double,
    M: Fn(Double, Double) -> Double,
    T: Fn(Double, Double) -> Double,
>(
    u: EskfUpdater,
    tools: &Tools<N, R, L, U, G, P, M, T>,
    model: &D,
    prior: &State,
    c: Course,
    k: int,
)
    requires
        tools.runs(u, model, prior, c),
        u.accept_on_error_descent,
        0 <= k < c.infos.len() - 1,
    ensures
        !tools.norm(c.infos[0]).spec_is_nan(),
        !tools.norm(c.infos[k]).spec_is_nan(),
        !tools.norm(c.infos[0]).spec_lt(tools.norm(c.infos[k])),
    decreases k,
{
    assert(tools.iterates(u, prior, c, k));
    if k > 0 {
        lemma_descent(u, tools, model, prior, c, k - 1);
    }
}

} // verus!
