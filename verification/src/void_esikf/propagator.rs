//! Propagation of a state and its covariance with an inertial measurement.
//!
//! The blocks are linearized by the caller; their places in the transition and in
//! the process noise, and which of them are left out, are decided here.

use vstd::prelude::*;

use crate::algebra::{
    add_matrices, entries, flipped, is, lemma_product, multiply, product, ring, sum_of, Ring,
};
use crate::arith::{apply_two, binary};
use crate::double::{Double, ONE_BITS};
use crate::matrix::Matrix;
use crate::void_types::motion::{
    place_point, advance, difference3, fall, half_square, minus3, plus3, scaled3, sum3, times3, way,
    placed,
};
use crate::void_types::state::{lemma_triple, triple, State, DIM_STATE};

verus! {

/// Variances of the inertial sensor.
#[derive(Clone, Copy, Debug, PartialEq, Eq, Structural)]
pub struct PropagationNoise {
    /// Gyroscope.
    pub gyr: Double,
    /// Accelerometer.
    pub acc: Double,
    /// Walk of the gyroscope's bias.
    pub bias_gyr: Double,
    /// Walk of the accelerometer's bias.
    pub bias_acc: Double,
    /// Walk of the inverse exposure time.
    pub inv_expo: Double,
}

impl Default for PropagationNoise {
    /// 0.1 for the sensors and their biases, 0.2 for the exposure.
    fn default() -> (n: Self)
        ensures
            n.gyr.bits == 0x3FB9_9999_9999_999A,
            n.acc.bits == 0x3FB9_9999_9999_999A,
            n.bias_gyr.bits == 0x3FB9_9999_9999_999A,
            n.bias_acc.bits == 0x3FB9_9999_9999_999A,
            n.inv_expo.bits == 0x3FC9_9999_9999_999A,
    {
        let tenth = Double { bits: 0x3FB9_9999_9999_999A };
        PropagationNoise {
            gyr: tenth,
            acc: tenth,
            bias_gyr: tenth,
            bias_acc: tenth,
            inv_expo: Double { bits: 0x3FC9_9999_9999_999A },
        }
    }
}

/// What is propagated.
#[derive(Clone, Copy, Debug, PartialEq, Eq, Structural)]
pub struct Propagator {
    /// The variances.
    pub noise: PropagationNoise,
    /// Estimate gravity.
    pub gravity_est: bool,
    /// Estimate the biases.
    pub bias_est: bool,
    /// Estimate the exposure.
    pub exposure_est: bool,
}

impl Default for Propagator {
    fn default() -> (p: Self)
        ensures
            call_ensures(<PropagationNoise as Default>::default, (), p.noise),
            p.gravity_est && p.bias_est && p.exposure_est,
    {
        Propagator::new()
    }
}

/// The blocks of a transition. All are three by three.
#[derive(Debug)]
pub struct TransitionBlocks {
    /// Orientation on orientation.
    pub turn: Matrix,
    /// Orientation on velocity.
    pub velocity_turn: Matrix,
    /// Accelerometer bias on velocity.
    pub velocity_bias: Matrix,
    /// The time step (s).
    pub dt: Double,
}

/// The variances of a time step.
#[derive(Debug)]
pub struct NoiseBlocks {
    /// Gyroscope.
    pub gyr: Double,
    /// Walk of the gyroscope's bias.
    pub bias_gyr: Double,
    /// Walk of the accelerometer's bias.
    pub bias_acc: Double,
    /// Walk of the inverse exposure time.
    pub inv_expo: Double,
    /// Accelerometer, turned into the world; three by three.
    pub velocity: Matrix,
}

impl TransitionBlocks {
    /// Whether the blocks have their sizes.
    pub open spec fn wf(&self) -> bool {
        self.turn.shaped(3, 3) && self.velocity_turn.shaped(3, 3) && self.velocity_bias.shaped(3, 3)
    }
}

/// Whether `(i, j)` lies in the three by three block at `(top, left)`.
pub open spec fn in_block(i: int, j: int, top: int, left: int) -> bool {
    top <= i < top + 3 && left <= j < left + 3
}

/// A number on the diagonal of a block.
pub open spec fn on_diagonal(i: int, j: int, top: int, left: int, value: Double) -> Double {
    if i - top == j - left {
        value
    } else {
        Double { bits: 0 }
    }
}

impl Propagator {
    /// Entry `(i, j)` of the transition.
    pub open spec fn transition(&self, b: &TransitionBlocks, i: int, j: int) -> Double {
        if in_block(i, j, 0, 0) {
            b.turn.at(i, j)
        } else if in_block(i, j, 0, 10) && self.bias_est {
            on_diagonal(i, j, 0, 10, b.dt.spec_neg())
        } else if in_block(i, j, 3, 7) {
            on_diagonal(i, j, 3, 7, b.dt)
        } else if in_block(i, j, 7, 0) {
            b.velocity_turn.at(i - 7, j)
        } else if in_block(i, j, 7, 13) && self.bias_est {
            b.velocity_bias.at(i - 7, j - 13)
        } else if in_block(i, j, 7, 16) && self.gravity_est {
            on_diagonal(i, j, 7, 16, b.dt)
        } else if i == j {
            Double { bits: ONE_BITS }
        } else {
            Double { bits: 0 }
        }
    }

    /// Entry `(i, j)` of the process noise.
    pub open spec fn noise_entry(&self, b: &NoiseBlocks, i: int, j: int) -> Double {
        if in_block(i, j, 7, 7) {
            b.velocity.at(i - 7, j - 7)
        } else if i != j {
            Double { bits: 0 }
        } else if i < 3 {
            b.gyr
        } else if i == 6 && self.exposure_est {
            b.inv_expo
        } else if 10 <= i < 13 {
            b.bias_gyr
        } else if 13 <= i < 16 {
            b.bias_acc
        } else {
            Double { bits: 0 }
        }
    }

    /// Everything is estimated, with the default variances.
    pub fn new() -> (p: Propagator)
        ensures
            call_ensures(<PropagationNoise as Default>::default, (), p.noise),
            p.gravity_est && p.bias_est && p.exposure_est,
    {
        Propagator {
            noise: PropagationNoise::default(),
            gravity_est: true,
            bias_est: true,
            exposure_est: true,
        }
    }

    /// With other variances.
    pub fn with_noise(self, noise: PropagationNoise) -> (p: Propagator)
        ensures
            p == (Propagator { noise, ..self }),
    {
        Propagator { noise, ..self }
    }

    /// Takes gravity as known.
    pub fn disable_gravity_est(&mut self)
        ensures
            *final(self) == (Propagator { gravity_est: false, ..*old(self) }),
    {
        self.gravity_est = false;
    }

    /// Takes the biases as known.
    pub fn disable_bias_est(&mut self)
        ensures
            *final(self) == (Propagator { bias_est: false, ..*old(self) }),
    {
        self.bias_est = false;
    }

    /// Takes the exposure as known.
    pub fn disable_exposure_est(&mut self)
        ensures
            *final(self) == (Propagator { exposure_est: false, ..*old(self) }),
    {
        self.exposure_est = false;
    }

    /// The transition of the error over a time step.
    pub fn discretized_f(&self, b: &TransitionBlocks) -> (f: Matrix)
        requires
            b.wf(),
        ensures
            f.shaped(DIM_STATE as int, DIM_STATE as int),
            forall|i: int, j: int|
                f.has(i, j) ==> #[trigger] f.at(i, j) == self.transition(b, i, j),
    {
        let mut f = Matrix::filled(DIM_STATE, DIM_STATE, Double::zero());
        f.set_diagonal(0, DIM_STATE, Double::one());
        f.set_block(0, 0, &b.turn);
        if self.bias_est {
            set_scaled(&mut f, 0, 10, b.dt.neg());
        }
        set_scaled(&mut f, 3, 7, b.dt);
        f.set_block(7, 0, &b.velocity_turn);
        if self.bias_est {
            f.set_block(7, 13, &b.velocity_bias);
        }
        if self.gravity_est {
            set_scaled(&mut f, 7, 16, b.dt);
        }
        f
    }

    /// The process noise of a time step.
    pub fn process_noise(&self, b: &NoiseBlocks) -> (q: Matrix)
        requires
            b.velocity.shaped(3, 3),
        ensures
            q.shaped(DIM_STATE as int, DIM_STATE as int),
            forall|i: int, j: int|
                q.has(i, j) ==> #[trigger] q.at(i, j) == self.noise_entry(b, i, j),
    {
        let mut q = Matrix::filled(DIM_STATE, DIM_STATE, Double::zero());
        q.set_diagonal(0, 3, b.gyr);
        q.set_diagonal(10, 3, b.bias_gyr);
        q.set_diagonal(13, 3, b.bias_acc);
        q.set_block(7, 7, &b.velocity);
        if self.exposure_est {
            q.set(6, 6, b.inv_expo);
        }
        q
    }
}

/// Whether a step can be linearized, always in the same way: from the orientation,
/// the rates without their biases, and the time.
pub open spec fn linearizes<
    L: Fn([Double; 9], [Double; 3], [Double; 3], Double) -> (TransitionBlocks, NoiseBlocks),
>(linearize: L) -> bool {
    &&& forall|r: [Double; 9], w: [Double; 3], a: [Double; 3], dt: Double| #[trigger]
        call_requires(linearize, (r, w, a, dt))
    &&& forall|
        r: [Double; 9],
        w: [Double; 3],
        a: [Double; 3],
        dt: Double,
        b: (TransitionBlocks, NoiseBlocks),
    | #[trigger]
        call_ensures(linearize, (r, w, a, dt), b) ==> b.0.wf() && b.1.velocity.shaped(3, 3)
}

/// Whether turning at a rate for a time always has one result.
pub open spec fn spins<S: Fn([Double; 9], [Double; 3], Double) -> [Double; 9]>(spin: S) -> bool {
    &&& forall|r: [Double; 9], w: [Double; 3], dt: Double| #[trigger]
        call_requires(spin, (r, w, dt))
    &&& forall|r: [Double; 9], w: [Double; 3], dt: Double, a: [Double; 9], b: [Double; 9]|
        #[trigger] call_ensures(spin, (r, w, dt), a) && #[trigger] call_ensures(
            spin,
            (r, w, dt),
            b,
        ) ==> a == b
}

/// The orientation after turning at a rate for a time.
pub open spec fn spun<S: Fn([Double; 9], [Double; 3], Double) -> [Double; 9]>(
    spin: S,
    r: [Double; 9],
    w: [Double; 3],
    dt: Double,
) -> [Double; 9] {
    choose|a: [Double; 9]| call_ensures(spin, (r, w, dt), a)
}

/// The covariance after a step: carried over by the transition, plus the noise.
pub open spec fn stepped_covariance(
    f: spec_fn(int, int) -> Double,
    cov: spec_fn(int, int) -> Double,
    q: spec_fn(int, int) -> Double,
    op: Ring,
) -> spec_fn(int, int) -> Double {
    sum_of(
        product(product(f, cov, op, DIM_STATE as int), flipped(f), op, DIM_STATE as int),
        q,
        op,
    )
}

impl Propagator {
    /// The entries of the transition.
    pub open spec fn transition_entries(&self, b: &TransitionBlocks) -> spec_fn(int, int) -> Double {
        |i: int, j: int| self.transition(b, i, j)
    }

    /// The entries of the process noise.
    pub open spec fn noise_entries(&self, b: &NoiseBlocks) -> spec_fn(int, int) -> Double {
        |i: int, j: int| self.noise_entry(b, i, j)
    }

    /// Whether a state is another moved on by a step with mean rates: it turns, and the
    /// acceleration acts in the orientation at the end of the step.
    pub open spec fn moved_on<
        L: Fn([Double; 9], [Double; 3], [Double; 3], Double) -> (TransitionBlocks, NoiseBlocks),
        S: Fn([Double; 9], [Double; 3], Double) -> [Double; 9],
    >(
        &self,
        before: &State,
        after: &State,
        omega_avr: Seq<Double>,
        acc_avr: Seq<Double>,
        dt: Double,
        linearize: L,
        spin: S,
        op: Ring,
    ) -> bool {
        let w = triple(difference3(omega_avr, before.bias_g@, op));
        let u = triple(difference3(acc_avr, before.bias_a@, op));
        let a = placed(after.rot@, u@, before.gravity@, op);
        &&& after.rot == spun(spin, before.rot, w, dt)
        &&& after.pos@ == sum3(before.pos@, way(before.vel@, a, dt, op), op)
        &&& after.vel@ == sum3(before.vel@, scaled3(a, dt, op), op)
        &&& *after == (State {
            rot: after.rot,
            pos: after.pos,
            vel: after.vel,
            cov: after.cov,
            ..*before
        })
        &&& exists|b: (TransitionBlocks, NoiseBlocks)| #[trigger]
            call_ensures(linearize, (before.rot, w, u, dt), b) && is(
                &after.cov,
                DIM_STATE as int,
                DIM_STATE as int,
                stepped_covariance(
                    self.transition_entries(&b.0),
                    entries(&before.cov),
                    self.noise_entries(&b.1),
                    op,
                ),
            )
    }

    /// Moves a state and its covariance on by a step with the mean rates
    /// `omega_avr` and `acc_avr`. The acceleration acts in the orientation at the
    /// end of the step.
    pub fn propagate<
        L: Fn([Double; 9], [Double; 3], [Double; 3], Double) -> (TransitionBlocks, NoiseBlocks),
        S: Fn([Double; 9], [Double; 3], Double) -> [Double; 9],
        P: Fn(Double, Double) -> Double,
        T: Fn(Double, Double) -> Double,
    >(
        &self,
        state: &mut State,
        omega_avr: &[Double; 3],
        acc_avr: &[Double; 3],
        dt: Double,
        linearize: &L,
        spin: &S,
        plus: &P,
        times: &T,
    )
        requires
            old(state).cov.shaped(DIM_STATE as int, DIM_STATE as int),
            linearizes(*linearize),
            spins(*spin),
            binary(*plus),
            binary(*times),
        ensures
            final(state).wf(),
            self.moved_on(
                old(state),
                final(state),
                omega_avr@,
                acc_avr@,
                dt,
                *linearize,
                *spin,
                ring(*plus, *times),
            ),
    {
        let ghost op = ring(*plus, *times);
        let ghost d = DIM_STATE as int;
        let w = minus3(omega_avr, &state.bias_g, plus, times);
        let u = minus3(acc_avr, &state.bias_a, plus, times);
        proof {
            lemma_triple(w);
            lemma_triple(u);
        }
        let b = linearize(state.rot, w, u, dt);
        assert(call_ensures(*linearize, (state.rot, w, u, dt), b));
        let f = self.discretized_f(&b.0);
        let q = self.process_noise(&b.1);
        let half = multiply(&f, &state.cov, plus, times);
        let ft = f.transpose();
        let full = multiply(&half, &ft, plus, times);
        let cov = add_matrices(&full, &q, plus);
        proof {
            let e = self.transition_entries(&b.0);
            let p = entries(&state.cov);
            assert(is(&f, d, d, e));
            assert(is(&ft, d, d, flipped(e))) by {
                assert forall|i: int, j: int| ft.has(i, j) implies #[trigger] ft.at(i, j) == flipped(
                    e,
                )(i, j) by {
                    assert(f.has(j, i));
                    assert(f.at(j, i) == e(j, i));
                }
            }
            lemma_product(&half, &f, &state.cov, e, p, op);
            lemma_product(&full, &half, &ft, product(e, p, op, d), flipped(e), op);
            let s = stepped_covariance(e, p, self.noise_entries(&b.1), op);
            assert forall|i: int, j: int| cov.has(i, j) implies #[trigger] cov.at(i, j) == s(i, j) by {
                assert(full.has(i, j));
                assert(q.has(i, j));
                assert(full.at(i, j) == product(product(e, p, op, d), flipped(e), op, d)(i, j));
                assert(q.at(i, j) == self.noise_entry(&b.1, i, j));
            }
        }
        state.cov = cov;
        let ghost from = state.rot;
        let rot = spin(state.rot, w, dt);
        assert(call_ensures(*spin, (from, w, dt), rot));
        assert(call_ensures(*spin, (from, w, dt), spun(*spin, from, w, dt)));
        state.rot = rot;
        let a = place_point(&state.rot, &u, &state.gravity, plus, times);
        let path = advance(&state.vel, &a, dt, plus, times);
        let gain = times3(&a, dt, plus, times);
        state.pos = plus3(&state.pos, &path, plus, times);
        state.vel = plus3(&state.vel, &gain, plus, times);
    }

    /// Whether a pose is that at time `t`, before the state `end` at time `t_end`, if
    /// the rates were constant in between.
    pub open spec fn taken_back<S: Fn([Double; 9], [Double; 3], Double) -> [Double; 9]>(
        &self,
        end: &State,
        omega_avr: Seq<Double>,
        acc_avr: Seq<Double>,
        t_end: Double,
        t: Double,
        spin: S,
        op: Ring,
        pose: ([Double; 9], [Double; 3]),
    ) -> bool {
        let dt = (op.plus)(t_end, t.spec_neg());
        let w = triple(difference3(omega_avr, end.bias_g@, op));
        let a = placed(end.rot@, difference3(acc_avr, end.bias_a@, op), end.gravity@, op);
        &&& pose.0 == spun(spin, end.rot, w, dt.spec_neg())
        &&& pose.1@ == sum3(
            difference3(end.pos@, scaled3(end.vel@, dt, op), op),
            half_square(a, dt, op),
            op,
        )
    }

    /// The orientation and the position at time `t`, before the state `end` at time
    /// `t_end`, if the rates were constant in between.
    pub fn backward<
        S: Fn([Double; 9], [Double; 3], Double) -> [Double; 9],
        P: Fn(Double, Double) -> Double,
        T: Fn(Double, Double) -> Double,
    >(
        &self,
        end: &State,
        omega_avr: &[Double; 3],
        acc_avr: &[Double; 3],
        t_end: Double,
        t: Double,
        spin: &S,
        plus: &P,
        times: &T,
    ) -> (pose: ([Double; 9], [Double; 3]))
        requires
            spins(*spin),
            binary(*plus),
            binary(*times),
        ensures
            self.taken_back(
                end,
                omega_avr@,
                acc_avr@,
                t_end,
                t,
                *spin,
                ring(*plus, *times),
                pose,
            ),
            ({
                let op = ring(*plus, *times);
                let dt = (op.plus)(t_end, t.spec_neg());
                let w = triple(difference3(omega_avr@, end.bias_g@, op));
                let a = placed(
                    end.rot@,
                    difference3(acc_avr@, end.bias_a@, op),
                    end.gravity@,
                    op,
                );
                &&& pose.0 == spun(*spin, end.rot, w, dt.spec_neg())
                &&& pose.1@ == sum3(
                    difference3(end.pos@, scaled3(end.vel@, dt, op), op),
                    half_square(a, dt, op),
                    op,
                )
            }),
    {
        let dt = apply_two(plus, t_end, t.neg());
        let w = minus3(omega_avr, &end.bias_g, plus, times);
        proof {
            lemma_triple(w);
        }
        let u = minus3(acc_avr, &end.bias_a, plus, times);
        let a = place_point(&end.rot, &u, &end.gravity, plus, times);
        let rot = spin(end.rot, w, dt.neg());
        assert(call_ensures(*spin, (end.rot, w, dt.spec_neg()), rot));
        assert(call_ensures(
            *spin,
            (end.rot, w, dt.spec_neg()),
            spun(*spin, end.rot, w, dt.spec_neg()),
        ));
        let back = times3(&end.vel, dt, plus, times);
        let still = minus3(&end.pos, &back, plus, times);
        let drop = fall(&a, dt, plus, times);
        (rot, plus3(&still, &drop, plus, times))
    }
}

/// Overwrites a three by three block with a number on its diagonal.
fn set_scaled(f: &mut Matrix, top: usize, left: usize, value: Double)
    requires
        old(f).wf(),
        top + 3 <= old(f).height(),
        left + 3 <= old(f).width(),
    ensures
        final(f).shaped(old(f).height(), old(f).width()),
        forall|i: int, j: int|
            old(f).has(i, j) ==> #[trigger] final(f).at(i, j) == (if in_block(
                i,
                j,
                top as int,
                left as int,
            ) {
                on_diagonal(i, j, top as int, left as int, value)
            } else {
                old(f).at(i, j)
            }),
{
    let mut block = Matrix::filled(3, 3, Double::zero());
    block.set_diagonal(0, 3, value);
    f.set_block(top, left, &block);
}

/// What is taken as known does not move: its columns in the transition are those
/// of the identity, and it gets no process noise.
pub proof fn law_disabled_estimates_stay(
    p: Propagator,
    f: &TransitionBlocks,
    q: &NoiseBlocks,
    i: int,
    j: int,
)
    requires
        0 <= i < DIM_STATE,
        0 <= j < DIM_STATE,
    ensures
        !p.gravity_est && 16 <= j ==> p.transition(f, i, j) == on_diagonal(
            i,
            j,
            0,
            0,
            Double { bits: ONE_BITS },
        ),
        !p.bias_est && 10 <= j < 16 ==> p.transition(f, i, j) == on_diagonal(
            i,
            j,
            0,
            0,
            Double { bits: ONE_BITS },
        ),
        !p.exposure_est && j == 6 ==> p.noise_entry(q, i, j) == (Double { bits: 0 }),
{
}

} // verus!
