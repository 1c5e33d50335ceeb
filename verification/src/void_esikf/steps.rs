//! What steps come to: nothing acts on a platform whose readings are its biases, and
//! under constant rates the way is the mean velocity times the time.

use vstd::prelude::*;

use crate::algebra::{Ring, HALF_BITS};
use crate::double::Double;
use crate::void_esikf::propagator::{spun, NoiseBlocks, Propagator, TransitionBlocks};
use crate::void_types::exact_motion::{
    lemma_difference3, lemma_half_square, lemma_placed, lemma_scaled3, lemma_sum3, lemma_way,
};
use crate::void_types::motion::{
    difference3, half3, half_square, placed, rotated3, scaled3, sum3, way,
};
use crate::void_types::state::{lemma_made_triple, part, triple, turned, State};
use crate::whole::{
    applied, exact, halves, lemma_neg, lemma_plus, lemma_widened, scalar, square, value, values, whole,
    whole3, whole9, EXACT,
};

verus! {

/// Whether a number is one of the two zeros.
pub open spec fn is_zero(a: Double) -> bool {
    a.magnitude() == 0
}

/// Whether sums and products treat zero as such: a number and its opposite cancel, a
/// product with zero is zero, and zero adds nothing.
pub open spec fn knows_zero(op: Ring) -> bool {
    &&& forall|x: Double| x.spec_is_finite() ==> is_zero(#[trigger] (op.plus)(x, x.spec_neg()))
    &&& forall|x: Double, z: Double|
        x.spec_is_finite() && is_zero(z) ==> is_zero(#[trigger] (op.times)(x, z))
    &&& forall|x: Double, z: Double|
        x.spec_is_finite() && is_zero(z) ==> is_zero(#[trigger] (op.times)(z, x))
    &&& forall|x: Double, z: Double|
        x.spec_is_finite() && is_zero(z) ==> (#[trigger] (op.plus)(x, z)).signed() == x.signed()
            && (op.plus)(x, z).spec_is_finite()
}

/// Whether numbers are finite.
pub open spec fn finite(v: Seq<Double>) -> bool {
    forall|i: int| 0 <= i < v.len() ==> (#[trigger] v[i]).spec_is_finite()
}

/// Whether numbers are zero.
pub open spec fn zeros(v: Seq<Double>) -> bool {
    forall|i: int| 0 <= i < v.len() ==> is_zero(#[trigger] v[i])
}

/// Whether two lists hold the same numbers; the two zeros are the same.
pub open spec fn same_numbers(a: Seq<Double>, b: Seq<Double>) -> bool {
    &&& a.len() == b.len()
    &&& forall|i: int| 0 <= i < a.len() ==> (#[trigger] a[i]).signed() == b[i].signed()
}

/// What cancels comes to no acceleration, in any orientation.
proof fn lemma_nothing_acts(
    rot: Seq<Double>,
    acc: Seq<Double>,
    gravity: Seq<Double>,
    dt: Double,
    op: Ring,
)
    requires
        knows_zero(op),
        rot.len() == 9,
        acc.len() == 3,
        gravity.len() == 3,
        finite(rot),
        finite(acc),
        dt.spec_is_finite(),
        zeros(gravity),
    ensures
        zeros(difference3(acc, acc, op)),
        zeros(placed(rot, difference3(acc, acc, op), gravity, op)),
        zeros(scaled3(placed(rot, difference3(acc, acc, op), gravity, op), dt, op)),
        zeros(half_square(placed(rot, difference3(acc, acc, op), gravity, op), dt, op)),
{
    let u = difference3(acc, acc, op);
    assert forall|i: int| 0 <= i < 3 implies is_zero(#[trigger] u[i]) by {
        assert(acc[i].spec_is_finite());
    }
    let w = rotated3(rot, u, op);
    let a = placed(rot, u, gravity, op);
    assert forall|i: int| 0 <= i < 3 implies is_zero(#[trigger] a[i]) by {
        assert(rot[3 * i].spec_is_finite() && rot[3 * i + 1].spec_is_finite() && rot[3 * i
            + 2].spec_is_finite());
        assert(is_zero(u[0]) && is_zero(u[1]) && is_zero(u[2]));
        let x = (op.times)(rot[3 * i], u[0]);
        let y = (op.times)(rot[3 * i + 1], u[1]);
        let z = (op.times)(rot[3 * i + 2], u[2]);
        assert(is_zero(x) && is_zero(y) && is_zero(z));
        assert(is_zero((op.plus)(x, y)));
        assert(is_zero((op.plus)((op.plus)(x, y), z)));
        assert(w[i] == (op.plus)((op.plus)(x, y), z));
        assert(is_zero(gravity[i]));
        assert(a[i] == (op.plus)(w[i], gravity[i]));
    }
    let half = Double { bits: HALF_BITS };
    assert(half.spec_is_finite());
    let h = half3(a, op);
    let d = scaled3(h, dt, op);
    assert forall|i: int| 0 <= i < 3 implies is_zero(#[trigger] scaled3(d, dt, op)[i]) by {
        assert(is_zero(a[i]));
        assert(h[i] == (op.times)(half, a[i]));
        assert(is_zero(h[i]));
        assert(d[i] == (op.times)(h[i], dt));
        assert(is_zero(d[i]));
    }
    assert forall|i: int| 0 <= i < 3 implies is_zero(#[trigger] scaled3(a, dt, op)[i]) by {
        assert(is_zero(a[i]));
    }
}

/// A platform whose readings are its biases, without gravity, keeps its orientation
/// and its velocity, and stays where it is if it has none.
pub proof fn law_balanced_readings_move_nothing<
    L: Fn([Double; 9], [Double; 3], [Double; 3], Double) -> (TransitionBlocks, NoiseBlocks),
    S: Fn([Double; 9], [Double; 3], Double) -> [Double; 9],
>(
    p: &Propagator,
    before: &State,
    after: &State,
    dt: Double,
    linearize: L,
    spin: S,
    op: Ring,
)
    requires
        p.moved_on(before, after, before.bias_g@, before.bias_a@, dt, linearize, spin, op),
        knows_zero(op),
        forall|w: [Double; 3]|
            zeros(w@) ==> same_numbers(
                (#[trigger] spun(spin, before.rot, w, dt))@,
                before.rot@,
            ),
        finite(before.rot@),
        finite(before.pos@),
        finite(before.vel@),
        finite(before.bias_g@),
        finite(before.bias_a@),
        zeros(before.gravity@),
        dt.spec_is_finite(),
    ensures
        same_numbers(after.rot@, before.rot@),
        same_numbers(after.vel@, before.vel@),
        zeros(before.vel@) ==> same_numbers(after.pos@, before.pos@),
{
    let w = triple(difference3(before.bias_g@, before.bias_g@, op));
    let u = triple(difference3(before.bias_a@, before.bias_a@, op));
    lemma_made_triple(difference3(before.bias_g@, before.bias_g@, op));
    lemma_made_triple(difference3(before.bias_a@, before.bias_a@, op));
    lemma_nothing_acts(before.rot@, before.bias_g@, before.gravity@, dt, op);
    assert(zeros(w@));
    assert(same_numbers(after.rot@, before.rot@));
    assert forall|i: int| 0 <= i < 9 implies (#[trigger] after.rot@[i]).spec_is_finite() by {
        assert(before.rot@[i].spec_is_finite());
        lemma_same_size(after.rot@[i], before.rot@[i]);
    }
    lemma_nothing_acts(after.rot@, before.bias_a@, before.gravity@, dt, op);
    let a = placed(after.rot@, u@, before.gravity@, op);
    assert forall|i: int| 0 <= i < 3 implies (#[trigger] after.vel@[i]).signed()
        == before.vel@[i].signed() by {
        assert(before.vel@[i].spec_is_finite());
        assert(is_zero(scaled3(a, dt, op)[i]));
        assert(after.vel@[i] == (op.plus)(before.vel@[i], scaled3(a, dt, op)[i]));
    }
    if zeros(before.vel@) {
        let s = way(before.vel@, a, dt, op);
        assert forall|i: int| 0 <= i < 3 implies (#[trigger] after.pos@[i]).signed()
            == before.pos@[i].signed() by {
            assert(before.pos@[i].spec_is_finite());
            assert(is_zero(before.vel@[i]));
            let x = scaled3(before.vel@, dt, op)[i];
            assert(x == (op.times)(before.vel@[i], dt));
            assert(is_zero(x));
            assert(is_zero(half_square(a, dt, op)[i]));
            assert(s[i] == (op.plus)(x, half_square(a, dt, op)[i]));
            assert(is_zero(s[i]));
            assert(after.pos@[i] == (op.plus)(before.pos@[i], s[i]));
        }
    }
}

/// Numbers that are the same have the same size.
proof fn lemma_same_size(a: Double, b: Double)
    requires
        a.signed() == b.signed(),
    ensures
        a.magnitude() == b.magnitude(),
{
}

/// Readings that are the biases, without gravity, predict no turn and no gain in
/// velocity, and no way either for a platform at rest.
pub proof fn law_balanced_readings_predict_nothing(
    x: &State,
    delta: Seq<Double>,
    dt: Double,
    op: Ring,
)
    requires
        x.predicts(delta, x.bias_g@, x.bias_a@, dt, op),
        knows_zero(op),
        finite(x.rot@),
        finite(x.bias_g@),
        finite(x.bias_a@),
        zeros(x.gravity@),
        dt.spec_is_finite(),
    ensures
        zeros(part(delta, 0)),
        zeros(part(delta, 7)),
        zeros(x.vel@) ==> zeros(part(delta, 3)),
        forall|i: int| 10 <= i < delta.len() ==> is_zero(#[trigger] delta[i]),
        is_zero(delta[6]),
{
    let w = difference3(x.bias_g@, x.bias_g@, op);
    lemma_nothing_acts(x.rot@, x.bias_g@, x.gravity@, dt, op);
    lemma_nothing_acts(x.rot@, x.bias_a@, x.gravity@, dt, op);
    let a = placed(x.rot@, difference3(x.bias_a@, x.bias_a@, op), x.gravity@, op);
    assert forall|i: int| 0 <= i < 3 implies is_zero(#[trigger] scaled3(w, dt, op)[i]) by {
        assert(is_zero(w[i]));
    }
    if zeros(x.vel@) {
        assert forall|i: int| 0 <= i < 3 implies is_zero(#[trigger] way(x.vel@, a, dt, op)[i]) by {
            assert(is_zero(x.vel@[i]));
            assert(is_zero(scaled3(x.vel@, dt, op)[i]));
            assert(is_zero(half_square(a, dt, op)[i]));
        }
    }
}

/// A propagated state turns as its prediction does: where turning at a rate for a time
/// is turning by the rate times the time, both come to the same orientation.
pub proof fn law_propagation_turns_as_predicted<
    L: Fn([Double; 9], [Double; 3], [Double; 3], Double) -> (TransitionBlocks, NoiseBlocks),
    S: Fn([Double; 9], [Double; 3], Double) -> [Double; 9],
    T: Fn([Double; 9], [Double; 3]) -> [Double; 9],
    P: Fn(Double, Double) -> Double,
>(
    p: &Propagator,
    before: &State,
    after: &State,
    next: &State,
    delta: Seq<Double>,
    omega: Seq<Double>,
    acc: Seq<Double>,
    dt: Double,
    linearize: L,
    spin: S,
    turn: T,
    plus: P,
    op: Ring,
)
    requires
        p.moved_on(before, after, omega, acc, dt, linearize, spin, op),
        before.predicts(delta, omega, acc, dt, op),
        before.moved(delta, turn, plus, next),
        forall|w: [Double; 3]|
            #[trigger] spun(spin, before.rot, w, dt) == turned(
                turn,
                before.rot,
                triple(scaled3(w@, dt, op)),
            ),
    ensures
        after.rot == next.rot,
{
    lemma_made_triple(difference3(omega, before.bias_g@, op));
}

/// Whether all numbers are even.
pub open spec fn even3(v: Seq<Double>) -> bool {
    forall|i: int| 0 <= i < 3 ==> value(#[trigger] v[i]) % 2 == 0
}

/// The acceleration in the world, in whole numbers: what is read without the bias,
/// turned into the world, and gravity.
pub open spec fn world_acceleration(x: &State, rot: Seq<Double>, acc: Seq<Double>, i: int) -> int {
    scalar(|k: int| square(rot)(i, k), |k: int| value(acc[k]) - value(x.bias_a@[k])) + value(
        x.gravity@[i],
    )
}

/// Whether the rates, the biases and the state are whole numbers, small enough for a
/// step, and the accelerations even.
pub open spec fn small_step(
    x: &State,
    rot: Seq<Double>,
    acc: Seq<Double>,
    dt: Double,
    m: int,
    n: int,
    t: int,
) -> bool {
    &&& whole9(rot, m)
    &&& whole3(acc, n)
    &&& whole3(x.bias_a@, n)
    &&& whole3(x.gravity@, n)
    &&& whole3(x.vel@, n)
    &&& whole3(x.pos@, n)
    &&& whole(dt, t)
    &&& even3(acc)
    &&& even3(x.bias_a@)
    &&& even3(x.gravity@)
    &&& 0 <= m <= EXACT
    &&& 0 <= n
    &&& 1 <= t <= EXACT
    &&& 2 * n + n * t + ((6 * (m * n) + 2 * n) * t) * t <= EXACT
}

/// The acceleration of a step in whole numbers.
proof fn lemma_acceleration(
    x: &State,
    rot: Seq<Double>,
    acc: Seq<Double>,
    dt: Double,
    op: Ring,
    m: int,
    n: int,
    t: int,
)
    requires
        exact(op),
        halves(op),
        small_step(x, rot, acc, dt, m, n, t),
    ensures
        ({
            let a = placed(rot, difference3(acc, x.bias_a@, op), x.gravity@, op);
            let b = 6 * (m * n) + 2 * n;
            &&& whole3(a, b)
            &&& even3(a)
            &&& forall|i: int| 0 <= i < 3 ==> value(#[trigger] a[i]) == world_acceleration(x, rot, acc, i)
            &&& 0 <= b <= b * t <= (b * t) * t
            &&& 0 <= n <= n * t
        }),
{
    let b = 6 * (m * n) + 2 * n;
    assert(0 <= m * n) by (nonlinear_arith)
        requires
            0 <= m,
            0 <= n,
    ;
    assert(b <= b * t <= (b * t) * t && n <= n * t) by (nonlinear_arith)
        requires
            0 <= b,
            0 <= n,
            1 <= t,
    ;
    let u = difference3(acc, x.bias_a@, op);
    let g = x.gravity@;
    lemma_difference3(acc, x.bias_a@, op, n, n);
    assert(3 * (m * (2 * n)) == 6 * (m * n)) by (nonlinear_arith);
    assert forall|i: int| 0 <= i < 3 implies whole(#[trigger] g[i], 2 * n) by {
        lemma_widened(g[i], n, 2 * n);
    }
    lemma_placed(rot, u, g, op, m, 2 * n);
    let a = placed(rot, u, g, op);
    let r = square(rot);
    assert forall|i: int| 0 <= i < 3 implies value(#[trigger] a[i]) == world_acceleration(
        x,
        rot,
        acc,
        i,
    ) && value(a[i]) % 2 == 0 by {
        assert(values(a)(i) == applied(r, values(u))(i) + value(g[i]));
        assert(value(u[0]) == value(acc[0]) - value(x.bias_a@[0]));
        assert(value(u[1]) == value(acc[1]) - value(x.bias_a@[1]));
        assert(value(u[2]) == value(acc[2]) - value(x.bias_a@[2]));
        assert(value(acc[0]) % 2 == 0 && value(acc[1]) % 2 == 0 && value(acc[2]) % 2 == 0);
        assert(value(x.bias_a@[0]) % 2 == 0 && value(x.bias_a@[1]) % 2 == 0 && value(x.bias_a@[2]) % 2
            == 0);
        assert(value(g[i]) % 2 == 0);
        lemma_even_product(r(i, 0), value(u[0]));
        lemma_even_product(r(i, 1), value(u[1]));
        lemma_even_product(r(i, 2), value(u[2]));
    }
}

/// A number times an even one is even.
proof fn lemma_even_product(a: int, b: int)
    requires
        b % 2 == 0,
    ensures
        (a * b) % 2 == 0,
{
    let h = b / 2;
    assert(a * b == 2 * (a * h)) by (nonlinear_arith)
        requires
            b == 2 * h,
    ;
}

/// A way under constant acceleration in terms of the velocity before and after.
proof fn lemma_mean_velocity(s: int, v: int, w: int, a: int, d: int)
    requires
        2 * s == 2 * (v * d) + a * d * d,
        w == v + a * d,
    ensures
        2 * s == (v + w) * d,
{
    assert((v + (v + a * d)) * d == 2 * (v * d) + a * d * d) by (nonlinear_arith);
}

/// A step is uniformly accelerated motion: the velocity gains the acceleration in the
/// world times the time, and the way is the mean of the velocities before and after,
/// times the time.
pub proof fn law_way_is_mean_velocity_times_time<
    L: Fn([Double; 9], [Double; 3], [Double; 3], Double) -> (TransitionBlocks, NoiseBlocks),
    S: Fn([Double; 9], [Double; 3], Double) -> [Double; 9],
>(
    p: &Propagator,
    before: &State,
    after: &State,
    omega: Seq<Double>,
    acc: Seq<Double>,
    dt: Double,
    linearize: L,
    spin: S,
    op: Ring,
    m: int,
    n: int,
    t: int,
    i: int,
)
    requires
        p.moved_on(before, after, omega, acc, dt, linearize, spin, op),
        exact(op),
        halves(op),
        small_step(before, after.rot@, acc, dt, m, n, t),
        0 <= i < 3,
    ensures
        value(after.vel@[i]) - value(before.vel@[i]) == world_acceleration(
            before,
            after.rot@,
            acc,
            i,
        ) * value(dt),
        2 * (value(after.pos@[i]) - value(before.pos@[i])) == (value(before.vel@[i]) + value(
            after.vel@[i],
        )) * value(dt),
{
    let b = 6 * (m * n) + 2 * n;
    lemma_made_triple(difference3(acc, before.bias_a@, op));
    lemma_acceleration(before, after.rot@, acc, dt, op, m, n, t);
    let a = placed(after.rot@, difference3(acc, before.bias_a@, op), before.gravity@, op);
    lemma_scaled3(a, dt, op, b, t);
    lemma_sum3(before.vel@, scaled3(a, dt, op), op, n, b * t);
    lemma_way(before.vel@, a, dt, op, n, b, t);
    lemma_sum3(before.pos@, way(before.vel@, a, dt, op), op, n, n * t + (b * t) * t);
    let s = way(before.vel@, a, dt, op);
    assert(after.vel@[i] == sum3(before.vel@, scaled3(a, dt, op), op)[i]);
    assert(after.pos@[i] == sum3(before.pos@, s, op)[i]);
    assert(value(scaled3(a, dt, op)[i]) == value(a[i]) * value(dt));
    assert(value(a[i]) == world_acceleration(before, after.rot@, acc, i));
    assert(2 * value(s[i]) == 2 * (value(before.vel@[i]) * value(dt)) + value(a[i]) * value(dt) * value(
        dt,
    ));
    lemma_mean_velocity(
        value(s[i]),
        value(before.vel@[i]),
        value(after.vel@[i]),
        value(a[i]),
        value(dt),
    );
}

/// A prediction is uniformly accelerated motion in the orientation at its start: the
/// turn is the rate without the gyroscope's bias times the time, and the way is that
/// of the mean velocity.
pub proof fn law_prediction_is_uniform(
    x: &State,
    delta: Seq<Double>,
    omega: Seq<Double>,
    acc: Seq<Double>,
    dt: Double,
    op: Ring,
    m: int,
    n: int,
    t: int,
    i: int,
)
    requires
        x.predicts(delta, omega, acc, dt, op),
        exact(op),
        halves(op),
        small_step(x, x.rot@, acc, dt, m, n, t),
        whole3(omega, n),
        whole3(x.bias_g@, n),
        2 * (n * t) <= EXACT,
        0 <= i < 3,
    ensures
        value(delta[i]) == (value(omega[i]) - value(x.bias_g@[i])) * value(dt),
        value(delta[7 + i]) == world_acceleration(x, x.rot@, acc, i) * value(dt),
        2 * value(delta[3 + i]) == (2 * value(x.vel@[i]) + value(delta[7 + i])) * value(dt),
{
    let b = 6 * (m * n) + 2 * n;
    lemma_acceleration(x, x.rot@, acc, dt, op, m, n, t);
    let a = placed(x.rot@, difference3(acc, x.bias_a@, op), x.gravity@, op);
    let w = difference3(omega, x.bias_g@, op);
    assert((2 * n) * t == 2 * (n * t)) by (nonlinear_arith);
    lemma_difference3(omega, x.bias_g@, op, n, n);
    lemma_scaled3(w, dt, op, 2 * n, t);
    lemma_scaled3(a, dt, op, b, t);
    lemma_way(x.vel@, a, dt, op, n, b, t);
    assert(delta[i] == part(delta, 0)[i]);
    assert(delta[3 + i] == part(delta, 3)[i]);
    assert(delta[7 + i] == part(delta, 7)[i]);
    assert(value(w[i]) == value(omega[i]) - value(x.bias_g@[i]));
    assert(value(scaled3(w, dt, op)[i]) == value(w[i]) * value(dt));
    assert(value(scaled3(a, dt, op)[i]) == value(a[i]) * value(dt));
    assert(value(a[i]) == world_acceleration(x, x.rot@, acc, i));
    let s = way(x.vel@, a, dt, op);
    assert(2 * value(s[i]) == 2 * (value(x.vel@[i]) * value(dt)) + value(a[i]) * value(dt) * value(dt));
    lemma_mean_velocity(
        value(s[i]),
        value(x.vel@[i]),
        value(x.vel@[i]) + value(a[i]) * value(dt),
        value(a[i]),
        value(dt),
    );
}

/// Going back undoes going on: from the position that is taken back to, the velocity
/// that the platform had there and the same acceleration lead to where it is.
pub proof fn law_going_back_undoes_going_on<S: Fn([Double; 9], [Double; 3], Double) -> [Double; 9]>(
    p: &Propagator,
    end: &State,
    omega: Seq<Double>,
    acc: Seq<Double>,
    t_end: Double,
    at: Double,
    spin: S,
    op: Ring,
    pose: ([Double; 9], [Double; 3]),
    m: int,
    n: int,
    t: int,
    i: int,
)
    requires
        p.taken_back(end, omega, acc, t_end, at, spin, op, pose),
        exact(op),
        halves(op),
        whole(t_end, t),
        whole(at, t),
        2 * t <= EXACT,
        small_step(end, end.rot@, acc, (op.plus)(t_end, at.spec_neg()), m, n, 2 * t),
        0 <= i < 3,
    ensures
        ({
            let d = value(t_end) - value(at);
            let earlier = value(end.vel@[i]) - world_acceleration(end, end.rot@, acc, i) * d;
            2 * (value(end.pos@[i]) - value(pose.1@[i])) == (earlier + value(end.vel@[i])) * d
        }),
{
    let dt = (op.plus)(t_end, at.spec_neg());
    let k = 2 * t;
    let b = 6 * (m * n) + 2 * n;
    lemma_neg(at, t);
    lemma_plus(op, t_end, at.spec_neg(), t, t);
    lemma_acceleration(end, end.rot@, acc, dt, op, m, n, k);
    let a = placed(end.rot@, difference3(acc, end.bias_a@, op), end.gravity@, op);
    let s = scaled3(end.vel@, dt, op);
    let h = half_square(a, dt, op);
    lemma_scaled3(end.vel@, dt, op, n, k);
    lemma_half_square(a, dt, op, b, k);
    lemma_difference3(end.pos@, s, op, n, n * k);
    lemma_sum3(difference3(end.pos@, s, op), h, op, n + n * k, (b * k) * k);
    let d = value(dt);
    assert(pose.1@[i] == sum3(difference3(end.pos@, s, op), h, op)[i]);
    assert(value(difference3(end.pos@, s, op)[i]) == value(end.pos@[i]) - value(s[i]));
    assert(value(s[i]) == value(end.vel@[i]) * d);
    assert(2 * value(h[i]) == value(a[i]) * d * d);
    assert(value(a[i]) == world_acceleration(end, end.rot@, acc, i));
    let v = value(end.vel@[i]);
    let c = value(a[i]);
    assert((v - c * d + v) * d == 2 * (v * d) - c * d * d) by (nonlinear_arith);
}

} // verus!
