//! The filter's state and the layout of its error.
//!
//! An error has nineteen entries: orientation (0 to 2), position (3 to 5),
//! inverse exposure time (6), velocity (7 to 9), gyroscope bias (10 to 12),
//! accelerometer bias (13 to 15) and gravity (16 to 18).

use vstd::prelude::*;

use crate::algebra::{ring, Ring};
use crate::arith::{apply_two, apply_vectors, binary, of_two, of_vectors};
use crate::double::{Double, ONE_BITS};
use crate::matrix::Matrix;
use crate::void_types::motion::{
    place_point, advance, difference3, minus3, scaled3, times3, way, placed,
};

verus! {

/// The size of an error.
pub const DIM_STATE: usize = 19;

/// The initial variance of orientation, position and velocity: 0.01.
pub const INIT_VARIANCE: u64 = 0x3F84_7AE1_47AE_147B;

/// The initial variance of exposure, biases and gravity: 1e-5.
pub const INIT_SMALL_VARIANCE: u64 = 0x3EE4_F8B5_88E3_68F1;

/// The rotation that turns nothing, row by row.
pub open spec fn identity() -> Seq<Double> {
    Seq::new(
        9,
        |i: int|
            if i == 0 || i == 4 || i == 8 {
                Double { bits: ONE_BITS }
            } else {
                Double { bits: 0 }
            },
    )
}

/// The rotation that turns nothing, row by row.
pub fn identity_rotation() -> (r: [Double; 9])
    ensures
        r@ == identity(),
{
    let o = Double::zero();
    let i = Double::one();
    let r = [i, o, o, o, i, o, o, o, i];
    assert(r@ =~= identity());
    r
}

/// The state with its covariance.
#[derive(Debug)]
pub struct State {
    /// The orientation: the rotation from body to world, row by row.
    pub rot: [Double; 9],
    /// The position (m).
    pub pos: [Double; 3],
    /// The velocity (m/s).
    pub vel: [Double; 3],
    /// The gyroscope's bias (rad/s).
    pub bias_g: [Double; 3],
    /// The accelerometer's bias (m/s^2).
    pub bias_a: [Double; 3],
    /// Gravity (m/s^2).
    pub gravity: [Double; 3],
    /// The inverse exposure time, relative to the first frame.
    pub inv_expo_time: Double,
    /// The covariance of the error.
    pub cov: Matrix,
}

/// The variance of entry `i` of the error at the start.
pub open spec fn initial_variance(i: int) -> Double {
    if i == 6 || 10 <= i {
        Double { bits: INIT_SMALL_VARIANCE }
    } else {
        Double { bits: INIT_VARIANCE }
    }
}

impl Default for State {
    /// At rest in the origin, level, with exposure one.
    fn default() -> (s: Self)
        ensures
            s.rot@ == identity(),
            s.pos@ == zeros(),
            s.vel@ == zeros(),
            s.bias_g@ == zeros(),
            s.bias_a@ == zeros(),
            s.gravity@ == zeros(),
            s.inv_expo_time == (Double { bits: ONE_BITS }),
            s.cov.shaped(DIM_STATE as int, DIM_STATE as int),
            forall|i: int, j: int|
                s.cov.has(i, j) ==> #[trigger] s.cov.at(i, j) == (if i == j {
                    initial_variance(i)
                } else {
                    Double { bits: 0 }
                }),
    {
        let o = Double::zero();
        let zero = [o, o, o];
        assert(zero@ =~= zeros());
        let mut cov = Matrix::filled(DIM_STATE, DIM_STATE, o);
        cov.set_diagonal(0, DIM_STATE, Double { bits: INIT_VARIANCE });
        cov.set(6, 6, Double { bits: INIT_SMALL_VARIANCE });
        cov.set_diagonal(10, 9, Double { bits: INIT_SMALL_VARIANCE });
        State {
            rot: identity_rotation(),
            pos: zero,
            vel: zero,
            bias_g: zero,
            bias_a: zero,
            gravity: zero,
            inv_expo_time: Double::one(),
            cov,
        }
    }
}

/// Three zeros.
pub open spec fn zeros() -> Seq<Double> {
    Seq::new(3, |i: int| Double { bits: 0 })
}

/// Whether turning a rotation by a vector always has one result.
pub open spec fn turns<T: Fn([Double; 9], [Double; 3]) -> [Double; 9]>(turn: T) -> bool {
    &&& forall|r: [Double; 9], w: [Double; 3]| #[trigger] call_requires(turn, (r, w))
    &&& forall|r: [Double; 9], w: [Double; 3], a: [Double; 9], b: [Double; 9]| #[trigger]
        call_ensures(turn, (r, w), a) && #[trigger] call_ensures(turn, (r, w), b) ==> a == b
}

/// A rotation turned by a vector.
pub open spec fn turned<T: Fn([Double; 9], [Double; 3]) -> [Double; 9]>(
    turn: T,
    r: [Double; 9],
    w: [Double; 3],
) -> [Double; 9] {
    choose|a: [Double; 9]| call_ensures(turn, (r, w), a)
}

/// Whether the vector between two rotations always is the same.
pub open spec fn separates<L: Fn([Double; 9], [Double; 9]) -> [Double; 3]>(log: L) -> bool {
    &&& forall|r: [Double; 9], s: [Double; 9]| #[trigger] call_requires(log, (r, s))
    &&& forall|r: [Double; 9], s: [Double; 9], a: [Double; 3], b: [Double; 3]| #[trigger]
        call_ensures(log, (r, s), a) && #[trigger] call_ensures(log, (r, s), b) ==> a == b
}

/// The vector that turns the first rotation into the second.
pub open spec fn between<L: Fn([Double; 9], [Double; 9]) -> [Double; 3]>(
    log: L,
    from: [Double; 9],
    to: [Double; 9],
) -> [Double; 3] {
    choose|a: [Double; 3]| call_ensures(log, (from, to), a)
}

/// Three entries of an error.
pub open spec fn part(delta: Seq<Double>, start: int) -> Seq<Double> {
    delta.subrange(start, start + 3)
}

/// Three entries of an error.
fn error_part(delta: &Vec<Double>, start: usize) -> (p: [Double; 3])
    requires
        start + 3 <= delta.len(),
    ensures
        p@ == part(delta@, start as int),
{
    let p = [delta[start], delta[start + 1], delta[start + 2]];
    assert(p@ =~= part(delta@, start as int));
    p
}

/// An array with the given numbers.
pub open spec fn triple(s: Seq<Double>) -> [Double; 3] {
    choose|a: [Double; 3]| a@ == s
}

/// Arrays with the same numbers are equal.
pub proof fn lemma_triple(a: [Double; 3])
    ensures
        triple(a@) == a,
{
    let b = triple(a@);
    assert(a@ == a@);
    assert(b@ == a@);
    assert(b =~= a);
}

/// Three numbers make an array.
pub proof fn lemma_made_triple(s: Seq<Double>)
    requires
        s.len() == 3,
    ensures
        triple(s)@ == s,
{
    let a = [s[0], s[1], s[2]];
    assert(a@ =~= s);
}

impl State {
    /// Whether the covariance has the error's size.
    pub open spec fn wf(&self) -> bool {
        self.cov.shaped(DIM_STATE as int, DIM_STATE as int)
    }

    /// Whether `next` is this state moved by an error. The covariance stays.
    pub open spec fn moved<
        T: Fn([Double; 9], [Double; 3]) -> [Double; 9],
        P: Fn(Double, Double) -> Double,
    >(&self, delta: Seq<Double>, turn: T, plus: P, next: &State) -> bool {
        &&& next.rot == turned(turn, self.rot, triple(part(delta, 0)))
        &&& next.pos@ == of_vectors(plus, self.pos@, part(delta, 3))
        &&& next.inv_expo_time == of_two(plus, self.inv_expo_time, delta[6])
        &&& next.vel@ == of_vectors(plus, self.vel@, part(delta, 7))
        &&& next.bias_g@ == of_vectors(plus, self.bias_g@, part(delta, 10))
        &&& next.bias_a@ == of_vectors(plus, self.bias_a@, part(delta, 13))
        &&& next.gravity@ == of_vectors(plus, self.gravity@, part(delta, 16))
        &&& next.cov.same(&self.cov)
    }

    /// Whether an error is what a step with mean rates adds: the turn, the way and the
    /// gain in velocity, and nothing for the rest.
    pub open spec fn predicts(
        &self,
        delta: Seq<Double>,
        omega: Seq<Double>,
        acc: Seq<Double>,
        dt: Double,
        op: Ring,
    ) -> bool {
        let w = difference3(omega, self.bias_g@, op);
        let a = placed(self.rot@, difference3(acc, self.bias_a@, op), self.gravity@, op);
        &&& delta.len() == DIM_STATE
        &&& part(delta, 0) == scaled3(w, dt, op)
        &&& part(delta, 3) == way(self.vel@, a, dt, op)
        &&& part(delta, 7) == scaled3(a, dt, op)
        &&& delta[6] == (Double { bits: 0 })
        &&& forall|i: int| 10 <= i < DIM_STATE ==> #[trigger] delta[i] == (Double { bits: 0 })
    }

    /// Whether an error leads from another state to this one.
    pub open spec fn apart<
        L: Fn([Double; 9], [Double; 9]) -> [Double; 3],
        M: Fn(Double, Double) -> Double,
    >(&self, other: &State, log: L, minus: M, delta: Seq<Double>) -> bool {
        &&& delta.len() == DIM_STATE
        &&& part(delta, 0) == between(log, other.rot, self.rot)@
        &&& part(delta, 3) == of_vectors(minus, self.pos@, other.pos@)
        &&& delta[6] == of_two(minus, self.inv_expo_time, other.inv_expo_time)
        &&& part(delta, 7) == of_vectors(minus, self.vel@, other.vel@)
        &&& part(delta, 10) == of_vectors(minus, self.bias_g@, other.bias_g@)
        &&& part(delta, 13) == of_vectors(minus, self.bias_a@, other.bias_a@)
        &&& part(delta, 16) == of_vectors(minus, self.gravity@, other.gravity@)
    }

    /// The error that leads from another state to this one.
    pub open spec fn spec_boxminus<
        L: Fn([Double; 9], [Double; 9]) -> [Double; 3],
        M: Fn(Double, Double) -> Double,
    >(&self, other: &State, log: L, minus: M) -> Seq<Double> {
        between(log, other.rot, self.rot)@ + of_vectors(minus, self.pos@, other.pos@) + seq![
            of_two(minus, self.inv_expo_time, other.inv_expo_time),
        ] + of_vectors(minus, self.vel@, other.vel@) + of_vectors(minus, self.bias_g@, other.bias_g@)
            + of_vectors(minus, self.bias_a@, other.bias_a@) + of_vectors(
            minus,
            self.gravity@,
            other.gravity@,
        )
    }

    /// Whether the states have the same values and covariances.
    pub open spec fn alike(&self, other: &State) -> bool {
        &&& *self == (State { cov: self.cov, ..*other })
        &&& self.cov.same(&other.cov)
    }

    /// The state moved by an error: the orientation is turned, everything else is
    /// added to. The covariance stays.
    pub fn boxplus<
        T: Fn([Double; 9], [Double; 3]) -> [Double; 9],
        P: Fn(Double, Double) -> Double,
    >(&self, delta: &Vec<Double>, turn: &T, plus: &P) -> (next: State)
        requires
            self.wf(),
            delta.len() == DIM_STATE,
            turns(*turn),
            binary(*plus),
        ensures
            next.wf(),
            self.moved(delta@, *turn, *plus, &next),
    {
        let w = error_part(delta, 0);
        let rot = turn(self.rot, w);
        proof {
            lemma_triple(w);
            assert(call_ensures(*turn, (self.rot, w), rot));
            assert(call_ensures(*turn, (self.rot, w), turned(*turn, self.rot, w)));
        }
        State {
            rot,
            pos: apply_vectors(plus, self.pos, error_part(delta, 3)),
            vel: apply_vectors(plus, self.vel, error_part(delta, 7)),
            bias_g: apply_vectors(plus, self.bias_g, error_part(delta, 10)),
            bias_a: apply_vectors(plus, self.bias_a, error_part(delta, 13)),
            gravity: apply_vectors(plus, self.gravity, error_part(delta, 16)),
            inv_expo_time: apply_two(plus, self.inv_expo_time, delta[6]),
            cov: self.cov.clone(),
        }
    }

    /// Moves the state by an error.
    pub fn boxplus_assign<
        T: Fn([Double; 9], [Double; 3]) -> [Double; 9],
        P: Fn(Double, Double) -> Double,
    >(&mut self, delta: &Vec<Double>, turn: &T, plus: &P)
        requires
            old(self).wf(),
            delta.len() == DIM_STATE,
            turns(*turn),
            binary(*plus),
        ensures
            final(self).wf(),
            old(self).moved(delta@, *turn, *plus, final(self)),
    {
        *self = self.boxplus(delta, turn, plus);
    }

    /// The error that leads from another state to this one.
    pub fn boxminus<
        L: Fn([Double; 9], [Double; 9]) -> [Double; 3],
        M: Fn(Double, Double) -> Double,
    >(&self, other: &State, log: &L, minus: &M) -> (delta: Vec<Double>)
        requires
            separates(*log),
            binary(*minus),
        ensures
            self.apart(other, *log, *minus, delta@),
            delta@ == self.spec_boxminus(other, *log, *minus),
    {
        let w = log(other.rot, self.rot);
        proof {
            assert(call_ensures(*log, (other.rot, self.rot), w));
            assert(call_ensures(
                *log,
                (other.rot, self.rot),
                between(*log, other.rot, self.rot),
            ));
        }
        let p = apply_vectors(minus, self.pos, other.pos);
        let v = apply_vectors(minus, self.vel, other.vel);
        let g = apply_vectors(minus, self.bias_g, other.bias_g);
        let a = apply_vectors(minus, self.bias_a, other.bias_a);
        let n = apply_vectors(minus, self.gravity, other.gravity);
        let t = apply_two(minus, self.inv_expo_time, other.inv_expo_time);
        let delta = vec![
            w[0], w[1], w[2], p[0], p[1], p[2], t, v[0], v[1], v[2], g[0], g[1], g[2], a[0], a[1],
            a[2], n[0], n[1], n[2],
        ];
        assert(part(delta@, 0) =~= w@);
        assert(part(delta@, 3) =~= p@);
        assert(part(delta@, 7) =~= v@);
        assert(part(delta@, 10) =~= g@);
        assert(part(delta@, 13) =~= a@);
        assert(part(delta@, 16) =~= n@);
        assert(delta@ =~= self.spec_boxminus(other, *log, *minus));
        delta
    }

    /// The error that a prediction adds over a step with mean rates `omega` and
    /// `acc`: the turn, the way and the gain in velocity, and nothing for the rest.
    pub fn predict<P: Fn(Double, Double) -> Double, T: Fn(Double, Double) -> Double>(
        &self,
        omega: &[Double; 3],
        acc: &[Double; 3],
        dt: Double,
        plus: &P,
        times: &T,
    ) -> (delta: Vec<Double>)
        requires
            binary(*plus),
            binary(*times),
        ensures
            self.predicts(delta@, omega@, acc@, dt, ring(*plus, *times)),
            ({
                let op = ring(*plus, *times);
                let w = difference3(omega@, self.bias_g@, op);
                let a = placed(
                    self.rot@,
                    difference3(acc@, self.bias_a@, op),
                    self.gravity@,
                    op,
                );
                &&& delta@.len() == DIM_STATE
                &&& part(delta@, 0) == scaled3(w, dt, op)
                &&& part(delta@, 3) == way(self.vel@, a, dt, op)
                &&& part(delta@, 7) == scaled3(a, dt, op)
                &&& delta@[6] == (Double { bits: 0 })
                &&& forall|i: int| 10 <= i < DIM_STATE ==> #[trigger] delta@[i] == (Double { bits: 0 })
            }),
    {
        let w = minus3(omega, &self.bias_g, plus, times);
        let unbiased = minus3(acc, &self.bias_a, plus, times);
        let a = place_point(&self.rot, &unbiased, &self.gravity, plus, times);
        let turn = times3(&w, dt, plus, times);
        let path = advance(&self.vel, &a, dt, plus, times);
        let gain = times3(&a, dt, plus, times);
        let o = Double::zero();
        let delta = vec![
            turn[0], turn[1], turn[2], path[0], path[1], path[2], o, gain[0], gain[1], gain[2], o,
            o, o, o, o, o, o, o, o,
        ];
        assert(part(delta@, 0) =~= turn@);
        assert(part(delta@, 3) =~= path@);
        assert(part(delta@, 7) =~= gain@);
        delta
    }
}

impl Clone for State {
    fn clone(&self) -> (s: Self)
        ensures
            self.wf() ==> s.wf() && s.cov.same(&self.cov),
            s.rot == self.rot,
            s.pos == self.pos,
            s.vel == self.vel,
            s.bias_g == self.bias_g,
            s.bias_a == self.bias_a,
            s.gravity == self.gravity,
            s.inv_expo_time == self.inv_expo_time,
    {
        State {
            rot: self.rot,
            pos: self.pos,
            vel: self.vel,
            bias_g: self.bias_g,
            bias_a: self.bias_a,
            gravity: self.gravity,
            inv_expo_time: self.inv_expo_time,
            cov: self.cov.clone(),
        }
    }
}

/// Whether subtraction undoes the addition of two vectors, place by place.
pub open spec fn recovered<P: Fn(Double, Double) -> Double, M: Fn(Double, Double) -> Double>(
    a: Seq<Double>,
    b: Seq<Double>,
    plus: P,
    minus: M,
) -> bool {
    forall|i: int| 0 <= i < a.len() ==> of_two(minus, of_two(plus, a[i], b[i]), a[i]) == #[trigger] b[i]
}

/// Moving a state by an error and asking what led there gives the error back, where
/// for the numbers of this state and this error subtraction undoes addition and the
/// vector between the two rotations is the one that was turned by.
pub proof fn law_boxminus_undoes_boxplus<
    T: Fn([Double; 9], [Double; 3]) -> [Double; 9],
    P: Fn(Double, Double) -> Double,
    L: Fn([Double; 9], [Double; 9]) -> [Double; 3],
    M: Fn(Double, Double) -> Double,
>(
    x: &State,
    delta: Seq<Double>,
    y: &State,
    back: Seq<Double>,
    turn: T,
    plus: P,
    log: L,
    minus: M,
)
    requires
        delta.len() == DIM_STATE,
        x.moved(delta, turn, plus, y),
        y.apart(x, log, minus, back),
        between(log, x.rot, turned(turn, x.rot, triple(part(delta, 0))))@ == part(delta, 0),
        recovered(x.pos@, part(delta, 3), plus, minus),
        of_two(minus, of_two(plus, x.inv_expo_time, delta[6]), x.inv_expo_time) == delta[6],
        recovered(x.vel@, part(delta, 7), plus, minus),
        recovered(x.bias_g@, part(delta, 10), plus, minus),
        recovered(x.bias_a@, part(delta, 13), plus, minus),
        recovered(x.gravity@, part(delta, 16), plus, minus),
    ensures
        back == delta,
{
    assert forall|i: int| 0 <= i < DIM_STATE implies #[trigger] back[i] == delta[i] by {
        if i < 3 {
            assert(part(back, 0)[i] == back[i]);
            assert(part(delta, 0)[i] == delta[i]);
        } else if i < 6 {
            assert(part(back, 3)[i - 3] == back[i]);
            assert(part(delta, 3)[i - 3] == delta[i]);
        } else if 7 <= i < 10 {
            assert(part(back, 7)[i - 7] == back[i]);
            assert(part(delta, 7)[i - 7] == delta[i]);
        } else if 10 <= i < 13 {
            assert(part(back, 10)[i - 10] == back[i]);
            assert(part(delta, 10)[i - 10] == delta[i]);
        } else if 13 <= i < 16 {
            assert(part(back, 13)[i - 13] == back[i]);
            assert(part(delta, 13)[i - 13] == delta[i]);
        } else if 16 <= i {
            assert(part(back, 16)[i - 16] == back[i]);
            assert(part(delta, 16)[i - 16] == delta[i]);
        }
    }
    assert(back =~= delta);
}

} // verus!
