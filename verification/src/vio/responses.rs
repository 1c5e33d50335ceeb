//! How residuals and estimates respond: a standstill leaves no residual, derivatives say
//! how residuals change, and every estimate moves by its own rows of an increment.

use vstd::prelude::*;

use crate::algebra::{list_of, product, ring, row_of, summed, three_by_three, unit, Ring};
use crate::double::{Double, ONE_BITS};
use crate::matrix::Matrix;
use crate::vio::estimates::{Estimates, InertialValues};
use crate::vio::standstill::{
    acceleration, angular_velocity, are_still_blocks, scaled, still_residual, ImuCalibration, ImuReading,
    InertialState,
};
use crate::vio::certainty::lemma_dot_of_zeros;
use crate::vio::jacobian::carried;
use crate::vio::state::State;
use crate::vio::updater::FeatureSystem;
use crate::vio::updater_zero_velocity::{mean_of, ReadingBlocks};
use crate::vio::values::{part_of, turned, values_moved};
use crate::vio::vio_manager::{propagated, Prediction, VioManager};
use crate::void_map::fits::lemma_summed;
use crate::void_esikf::steps::{finite, is_zero, knows_zero, zeros};
use crate::void_measure::distances::cross_of;
use crate::void_types::exact_motion::{lemma_difference3, lemma_rotated, lemma_scaled3};
use crate::void_types::motion::{difference3, rotated3, scaled3};
use crate::void_types::so3::cross;
use crate::whole::{
    exact, lemma_neg, lemma_one, lemma_plus, lemma_times, lemma_widened, lemma_zero, scalar, sum_to,
    value, values, whole, whole3, whole9, EXACT,
};

verus! {

/// A platform that does not turn and feels gravity alone, as its orientation says, leaves
/// no residual.
pub proof fn law_standing_platforms_leave_no_residual(
    w: Seq<Double>,
    at: InertialState,
    dt: Double,
    weight: (Double, Double, Double),
    op: Ring,
)
    requires
        knows_zero(op),
        w.len() == 3,
        zeros(w),
        finite(rotated3(at.rot@, at.gravity@, op)),
        weight.0.spec_is_finite(),
        weight.1.spec_is_finite(),
    ensures
        still_residual(w, rotated3(at.rot@, at.gravity@, op), at, dt, weight, false, op).len() == 6,
        zeros(still_residual(w, rotated3(at.rot@, at.gravity@, op), at, dt, weight, false, op)),
{
    let a = rotated3(at.rot@, at.gravity@, op);
    let d = difference3(a, a, op);
    let res = still_residual(w, a, at, dt, weight, false, op);
    let x = scaled3(w, weight.0.spec_neg(), op);
    let y = scaled3(d, weight.1.spec_neg(), op);
    assert(weight.0.spec_neg().spec_is_finite());
    assert(weight.1.spec_neg().spec_is_finite());
    assert forall|i: int| 0 <= i < 6 implies is_zero(#[trigger] res[i]) by {
        if i < 3 {
            assert(is_zero(w[i]));
            assert(res[i] == x[i]);
            assert(x[i] == (op.times)(w[i], weight.0.spec_neg()));
        } else {
            let k = i - 3;
            assert(a[k].spec_is_finite());
            assert(d[k] == (op.plus)(a[k], a[k].spec_neg()));
            assert(is_zero(d[k]));
            assert(res[i] == y[k]);
            assert(y[k] == (op.times)(d[k], weight.1.spec_neg()));
        }
    }
}

/// A unit matrix times a number, in whole numbers.
proof fn lemma_scaled_unit(k: Double, op: Ring, m: int, i: int, j: int)
    requires
        exact(op),
        whole(k, m),
        0 <= m <= EXACT,
        0 <= i < 3,
        0 <= j < 3,
    ensures
        value(scaled(unit(), k, op)(i, j)) == (if i == j {
            value(k)
        } else {
            0
        }),
{
    lemma_one();
    lemma_zero();
    lemma_widened(Double { bits: 0 }, 0, 1);
    assert(1 * m == m);
    lemma_times(op, Double { bits: ONE_BITS }, k, 1, m);
    lemma_times(op, Double { bits: 0 }, k, 1, m);
}

/// The derivatives of a standstill by the biases say how its residual changes: with
/// biases that are greater by some vectors, and so rates that are less by them, the
/// residual is less by the derivatives times those vectors.
pub proof fn law_standstill_responds_to_the_biases(
    b: &ReadingBlocks,
    w: Seq<Double>,
    a: Seq<Double>,
    w2: Seq<Double>,
    a2: Seq<Double>,
    at: InertialState,
    dt: Double,
    weight: (Double, Double, Double),
    op: Ring,
    m: int,
    i: int,
)
    requires
        are_still_blocks(b, a, at, dt, weight, false, op),
        exact(op),
        whole3(w, m),
        whole3(a, m),
        whole3(w2, m),
        whole3(a2, m),
        whole9(at.rot@, m),
        whole3(at.gravity@, m),
        whole(weight.0, m),
        whole(weight.1, m),
        1 <= m,
        4 * (m * m * m) <= EXACT,
        0 <= i < 3,
    ensures
        ({
            let r = still_residual(w, a, at, dt, weight, false, op);
            let r2 = still_residual(w2, a2, at, dt, weight, false, op);
            &&& value(r2[i]) - value(r[i]) == -scalar(
                |j: int| value(b.gyro_bias.at(i, j)),
                |j: int| value(w[j]) - value(w2[j]),
            )
            &&& value(r2[3 + i]) - value(r[3 + i]) == -scalar(
                |j: int| value(b.accel_bias.at(i, j)),
                |j: int| value(a[j]) - value(a2[j]),
            )
        }),
{
    assert(m <= m * m <= m * m * m) by (nonlinear_arith)
        requires
            1 <= m,
    ;
    let g = rotated3(at.rot@, at.gravity@, op);
    lemma_rotated(at.rot@, at.gravity@, op, m, m);
    let d = difference3(a, g, op);
    let d2 = difference3(a2, g, op);
    lemma_difference3(a, g, op, m, 3 * (m * m));
    lemma_difference3(a2, g, op, m, 3 * (m * m));
    let c = m + 3 * (m * m);
    assert(c * m <= 4 * (m * m * m) && c <= c * m) by (nonlinear_arith)
        requires
            c == m + 3 * (m * m),
            1 <= m,
    ;
    lemma_neg(weight.0, m);
    lemma_neg(weight.1, m);
    let p = weight.0.spec_neg();
    let q = weight.1.spec_neg();
    lemma_scaled3(w, p, op, m, m);
    lemma_scaled3(w2, p, op, m, m);
    lemma_scaled3(d, q, op, c, m);
    lemma_scaled3(d2, q, op, c, m);
    lemma_scaled_unit(p, op, m, i, 0);
    lemma_scaled_unit(p, op, m, i, 1);
    lemma_scaled_unit(p, op, m, i, 2);
    lemma_scaled_unit(q, op, m, i, 0);
    lemma_scaled_unit(q, op, m, i, 1);
    lemma_scaled_unit(q, op, m, i, 2);
    assert(b.gyro_bias.has(i, 0) && b.gyro_bias.has(i, 1) && b.gyro_bias.has(i, 2));
    assert(b.accel_bias.has(i, 0) && b.accel_bias.has(i, 1) && b.accel_bias.has(i, 2));
    let r = still_residual(w, a, at, dt, weight, false, op);
    let r2 = still_residual(w2, a2, at, dt, weight, false, op);
    assert(r[i] == scaled3(w, p, op)[i] && r2[i] == scaled3(w2, p, op)[i]);
    assert(r[3 + i] == scaled3(d, q, op)[i] && r2[3 + i] == scaled3(d2, q, op)[i]);
    assert(value(d[i]) == value(a[i]) - value(g[i]));
    assert(value(d2[i]) == value(a2[i]) - value(g[i]));
    lemma_response(value(p), value(w[i]), value(w2[i]), 0);
    lemma_response(value(q), value(a[i]), value(a2[i]), value(g[i]));
}

/// How a product responds to its first factor.
proof fn lemma_response(k: int, a: int, b: int, g: int)
    ensures
        (b - g) * k - (a - g) * k == -(k * (a - b)),
        b * k - a * k == -(k * (a - b)),
{
    assert((b - g) * k - (a - g) * k == -(k * (a - b))) by (nonlinear_arith);
    assert(b * k - a * k == -(k * (a - b))) by (nonlinear_arith);
}

/// The derivative of a standstill by the orientation says how its residual changes: as
/// the platform turns by a small vector, gravity in it turns the other way, and the
/// residual is less by the derivative times the vector.
pub proof fn law_standstill_responds_to_a_turn(
    b: &ReadingBlocks,
    a: Seq<Double>,
    at: InertialState,
    dt: Double,
    weight: (Double, Double, Double),
    turn: spec_fn(int) -> int,
    op: Ring,
    m: int,
    i: int,
)
    requires
        are_still_blocks(b, a, at, dt, weight, false, op),
        exact(op),
        whole9(at.rot@, m),
        whole3(at.gravity@, m),
        whole(weight.1, m),
        1 <= m,
        4 * (m * m * m) <= EXACT,
        0 <= i < 3,
    ensures
        scalar(|j: int| value(b.accel_rotation.at(i, j)), turn) == value(weight.1) * cross_of(
            turn,
            values(rotated3(at.rot@, at.gravity@, op)),
        )(i),
{
    assert(m <= m * m <= m * m * m) by (nonlinear_arith)
        requires
            1 <= m,
    ;
    assert((3 * (m * m)) * m == 3 * (m * m * m)) by (nonlinear_arith);
    let g = rotated3(at.rot@, at.gravity@, op);
    lemma_rotated(at.rot@, at.gravity@, op, m, m);
    let n = 3 * (m * m);
    lemma_neg(weight.1, m);
    let q = weight.1.spec_neg();
    let f = cross(g);
    lemma_zero();
    lemma_widened(Double { bits: 0 }, 0, n);
    assert(whole(g[0], n) && whole(g[1], n) && whole(g[2], n));
    lemma_neg(g[0], n);
    lemma_neg(g[1], n);
    lemma_neg(g[2], n);
    assert(b.accel_rotation.has(i, 0) && b.accel_rotation.has(i, 1) && b.accel_rotation.has(i, 2));
    lemma_times(op, f(i, 0), q, n, m);
    lemma_times(op, f(i, 1), q, n, m);
    lemma_times(op, f(i, 2), q, n, m);
    let k = value(weight.1);
    let (x, y, z) = (value(g[0]), value(g[1]), value(g[2]));
    let (u, v, w) = (turn(0), turn(1), turn(2));
    lemma_turned_pair(k, x, y, z, u, v, w);
    let e = |j: int| value(b.accel_rotation.at(i, j));
    assert(e(0) == value(f(i, 0)) * (-k) && e(1) == value(f(i, 1)) * (-k) && e(2) == value(f(i, 2))
        * (-k));
}

/// A cross product times a number, row by row.
proof fn lemma_turned_pair(k: int, x: int, y: int, z: int, u: int, v: int, w: int)
    ensures
        (0 * (-k)) * u + ((-z) * (-k)) * v + (y * (-k)) * w == k * (v * z - w * y),
        (z * (-k)) * u + (0 * (-k)) * v + ((-x) * (-k)) * w == k * (w * x - u * z),
        ((-y) * (-k)) * u + (x * (-k)) * v + (0 * (-k)) * w == k * (u * y - v * x),
{
    lemma_pair_of(k, z, v, y, w);
    lemma_pair_of(k, x, w, z, u);
    lemma_pair_of(k, y, u, x, v);
}

/// A difference of products times a number.
proof fn lemma_pair_of(k: int, a: int, b: int, c: int, d: int)
    ensures
        ((-a) * (-k)) * b + (c * (-k)) * d == k * (b * a - d * c),
{
    assert(((-a) * (-k)) * b == k * (b * a)) by (nonlinear_arith);
    assert((c * (-k)) * d == -(k * (d * c))) by (nonlinear_arith);
    assert(k * (b * a - d * c) == k * (b * a) - k * (d * c)) by (nonlinear_arith);
}

/// Every part of the inertial state, every clone and every feature moves by its own rows
/// of the increment, in whole numbers exactly; orientations turn by theirs, and first
/// estimates stay.
pub proof fn law_estimates_move_by_their_own_rows<
    U: Fn([Double; 9], [Double; 3]) -> [Double; 9],
    P: Fn(Double, Double) -> Double,
    T: Fn(Double, Double) -> Double,
>(
    before: &State,
    after: &State,
    was: &Estimates,
    moved: &Estimates,
    dx: Seq<Double>,
    turn: U,
    plus: P,
    times: T,
    m: int,
    i: int,
)
    requires
        values_moved(before, after, was, moved, dx, turn, plus),
        exact(ring(plus, times)),
        0 <= before.imu.id,
        before.imu.id + 15 <= dx.len(),
        0 <= m,
        2 * m <= EXACT,
        forall|k: int| 0 <= k < dx.len() ==> whole(#[trigger] dx[k], m),
        whole3(was.inertial.pose.pos@, m),
        whole3(was.inertial.vel@, m),
        whole3(was.inertial.bias_g@, m),
        whole3(was.inertial.bias_a@, m),
        0 <= i < 3,
    ensures
        ({
            let id = before.imu.id as int;
            let (x, y) = (was.inertial, moved.inertial);
            &&& turned(turn, x.pose.rot, dx.subrange(id, id + 3), y.pose.rot)
            &&& value(y.pose.pos@[i]) - value(x.pose.pos@[i]) == value(dx[id + 3 + i])
            &&& value(y.vel@[i]) - value(x.vel@[i]) == value(dx[id + 6 + i])
            &&& value(y.bias_g@[i]) - value(x.bias_g@[i]) == value(dx[id + 9 + i])
            &&& value(y.bias_a@[i]) - value(x.bias_a@[i]) == value(dx[id + 12 + i])
            &&& moved.inertial_first == was.inertial_first
        }),
        forall|c: int|
            0 <= c < was.clones@.len() && 0 <= before.clones_imu@[c].1.id && before.clones_imu@[c].1.id
                + 6 <= dx.len() && whole3(was.clones@[c].0.pos@, m) ==> {
                let id = before.clones_imu@[c].1.id as int;
                &&& value((#[trigger] moved.clones@[c]).0.pos@[i]) - value(was.clones@[c].0.pos@[i])
                    == value(dx[id + 3 + i])
                &&& turned(turn, was.clones@[c].0.rot, dx.subrange(id, id + 3), moved.clones@[c].0.rot)
                &&& moved.clones@[c].1 == was.clones@[c].1
            },
        forall|f: int, k: int|
            0 <= f < before.features_slam@.len() && 0 <= k < before.features_slam@[f].value@.len() && 0
                <= before.features_slam@[f].id && before.features_slam@[f].id
                + before.features_slam@[f].value@.len() <= dx.len() && whole(
                before.features_slam@[f].value@[k],
                m,
            ) ==> value(#[trigger] after.features_slam@[f].value@[k]) - value(
                before.features_slam@[f].value@[k],
            ) == value(dx[before.features_slam@[f].id + k]),
{
    let op = ring(plus, times);
    let id = before.imu.id as int;
    let p = part_of(dx, id, 15);
    let (x, y) = (was.inertial, moved.inertial);
    assert(p.subrange(0, 6).subrange(0, 3) =~= dx.subrange(id, id + 3));
    assert(p.subrange(0, 6).subrange(3, 6)[i] == dx[id + 3 + i]);
    assert(p.subrange(6, 9)[i] == dx[id + 6 + i]);
    assert(p.subrange(9, 12)[i] == dx[id + 9 + i]);
    assert(p.subrange(12, 15)[i] == dx[id + 12 + i]);
    lemma_plus(op, x.pose.pos@[i], dx[id + 3 + i], m, m);
    lemma_plus(op, x.vel@[i], dx[id + 6 + i], m, m);
    lemma_plus(op, x.bias_g@[i], dx[id + 9 + i], m, m);
    lemma_plus(op, x.bias_a@[i], dx[id + 12 + i], m, m);
    assert forall|c: int|
        0 <= c < was.clones@.len() && 0 <= before.clones_imu@[c].1.id && before.clones_imu@[c].1.id + 6
            <= dx.len() && whole3(was.clones@[c].0.pos@, m) implies {
        let id = before.clones_imu@[c].1.id as int;
        &&& value((#[trigger] moved.clones@[c]).0.pos@[i]) - value(was.clones@[c].0.pos@[i]) == value(
            dx[id + 3 + i],
        )
        &&& turned(turn, was.clones@[c].0.rot, dx.subrange(id, id + 3), moved.clones@[c].0.rot)
        &&& moved.clones@[c].1 == was.clones@[c].1
    } by {
        let id = before.clones_imu@[c].1.id as int;
        let q = part_of(dx, id, 6);
        assert(q.subrange(0, 3) =~= dx.subrange(id, id + 3));
        assert(q.subrange(3, 6)[i] == dx[id + 3 + i]);
        lemma_plus(op, was.clones@[c].0.pos@[i], dx[id + 3 + i], m, m);
    }
    assert forall|f: int, k: int|
        0 <= f < before.features_slam@.len() && 0 <= k < before.features_slam@[f].value@.len() && 0
            <= before.features_slam@[f].id && before.features_slam@[f].id
            + before.features_slam@[f].value@.len() <= dx.len() && whole(
            before.features_slam@[f].value@[k],
            m,
        ) implies value(#[trigger] after.features_slam@[f].value@[k]) - value(
        before.features_slam@[f].value@[k],
    ) == value(dx[before.features_slam@[f].id + k]) by {
        let l = before.features_slam@[f];
        let q = part_of(dx, l.id as int, l.value@.len() as int);
        assert(q[k] == dx[l.id + k]);
        assert(after.features_slam@[f].value@[k] == (op.plus)(l.value@[k], q[k]));
        lemma_plus(op, l.value@[k], dx[l.id + k], m, m);
    }
}

/// The mean of what lies between two numbers lies between them, where dividing by the
/// count is exact.
pub proof fn law_mean_disparity_lies_between<
    N: Fn(usize) -> Double,
    V: Fn(Double, Double) -> Double,
>(list: Seq<Double>, number: N, divide: V, op: Ring, m: int, low: int, high: int)
    requires
        exact(op),
        0 < list.len(),
        0 <= m,
        list.len() * m <= EXACT,
        forall|k: int|
            0 <= k < list.len() ==> whole(#[trigger] list[k], m) && low <= value(list[k]) <= high,
        value(mean_of(list, number, divide, op)) * list.len() == value(
            summed(list_of(list), op, list.len() as int),
        ),
    ensures
        low <= value(mean_of(list, number, divide, op)) <= high,
{
    let n = list.len() as int;
    let f = list_of(list);
    assert forall|k: int| 0 <= k < n implies whole(#[trigger] f(k), m) by {
        assert(whole(list[k], m));
    }
    lemma_summed(f, op, n, m);
    lemma_sum_between(|k: int| value(f(k)), n, low, high);
    let a = value(mean_of(list, number, divide, op));
    assert(low <= a <= high) by (nonlinear_arith)
        requires
            n > 0,
            n * low <= a * n <= n * high,
    ;
}

/// A sum of numbers that lie between two others.
proof fn lemma_sum_between(f: spec_fn(int) -> int, n: int, low: int, high: int)
    requires
        0 <= n,
        forall|k: int| 0 <= k < n ==> low <= #[trigger] f(k) <= high,
    ensures
        n * low <= sum_to(f, n) <= n * high,
    decreases n,
{
    if n > 0 {
        lemma_sum_between(f, n - 1, low, high);
        assert(low <= f(n - 1) <= high);
        assert(n * low == (n - 1) * low + low && n * high == (n - 1) * high + high) by (nonlinear_arith);
    } else {
        assert(n * low == 0 && n * high == 0) by (nonlinear_arith)
            requires
                n == 0,
        ;
    }
}

/// A propagation ends where its last prediction does: pose and velocity are those
/// predicted, as first estimates too, the biases stay, and a clone that joins has the
/// predicted pose and the time of the image.
pub proof fn law_propagation_ends_at_the_last_prediction<
    F: Fn(ImuCalibration, ImuReading, ImuReading, InertialValues, InertialValues) -> Prediction,
    P: Fn(Double, Double) -> Double,
    T: Fn(Double, Double) -> Double,
>(
    before: &VioManager,
    after: &VioManager,
    cov: &Matrix,
    c: ImuCalibration,
    run: Seq<Prediction>,
    readings: Seq<ImuReading>,
    timestamp: Double,
    augment: bool,
    predict: F,
    plus: P,
    times: T,
)
    requires
        propagated(before, after, cov, c, run, readings, timestamp, augment, predict, plus, times),
        run.len() > 0,
    ensures
        after.values.inertial.pose == run.last().pose,
        after.values.inertial.vel == run.last().vel,
        after.values.inertial_first == after.values.inertial,
        after.values.inertial.bias_g == before.values.inertial.bias_g,
        after.values.inertial.bias_a == before.values.inertial.bias_a,
        after.state.timestamp == timestamp,
        after.state.features_slam == before.state.features_slam,
        readings.len() == run.len() + 1,
        augment ==> after.state.clones_imu@.last().0 == timestamp && after.values.clones@.last().0
            == run.last().pose && after.values.clones@.len() == before.values.clones@.len() + 1,
        !augment ==> after.values.clones == before.values.clones,
{
}

/// A matrix of finite numbers applied to zeros.
proof fn lemma_carried_zeros(m: spec_fn(int, int) -> Double, v: Seq<Double>, op: Ring)
    requires
        knows_zero(op),
        v.len() == 3,
        zeros(v),
        forall|i: int, k: int| 0 <= i < 3 && 0 <= k < 3 ==> (#[trigger] m(i, k)).spec_is_finite(),
    ensures
        zeros(carried(m, v, op)),
{
    assert forall|i: int| 0 <= i < 3 implies is_zero(#[trigger] carried(m, v, op)[i]) by {
        let f = row_of(m, i);
        let g = list_of(v);
        assert forall|k: int| 0 <= k < 3 implies (#[trigger] f(k)).spec_is_finite() by {
            assert(m(i, k).spec_is_finite());
        }
        assert forall|k: int| 0 <= k < 3 implies is_zero(#[trigger] g(k)) by {
            assert(is_zero(v[k]));
        }
        lemma_dot_of_zeros(f, g, op, 3);
    }
}

/// Readings that are the biases tell of no turn and no acceleration, whatever the
/// calibration.
pub proof fn law_readings_at_the_biases_are_still(c: ImuCalibration, r: ImuReading, op: Ring)
    requires
        knows_zero(op),
        r.am == c.bias_a,
        r.wm == c.bias_g,
        finite(c.bias_a@),
        finite(c.bias_g@),
        finite(c.tg@),
        forall|i: int, k: int|
            0 <= i < 3 && 0 <= k < 3 ==> (#[trigger] product(
                three_by_three(c.r_acc_to_imu@),
                three_by_three(c.da@),
                op,
                3,
            )(i, k)).spec_is_finite(),
        forall|i: int, k: int|
            0 <= i < 3 && 0 <= k < 3 ==> (#[trigger] product(
                three_by_three(c.r_gyro_to_imu@),
                three_by_three(c.dw@),
                op,
                3,
            )(i, k)).spec_is_finite(),
    ensures
        zeros(acceleration(c, r, op)),
        zeros(angular_velocity(c, r, op)),
{
    let d = difference3(r.am@, c.bias_a@, op);
    assert forall|i: int| 0 <= i < 3 implies is_zero(#[trigger] d[i]) by {
        assert(c.bias_a@[i].spec_is_finite());
    }
    let f = product(three_by_three(c.r_acc_to_imu@), three_by_three(c.da@), op, 3);
    lemma_carried_zeros(f, d, op);
    let a = acceleration(c, r, op);
    let t = rotated3(c.tg@, a, op);
    let e = difference3(r.wm@, c.bias_g@, op);
    let w = difference3(e, t, op);
    assert forall|i: int| 0 <= i < 3 implies is_zero(#[trigger] w[i]) by {
        assert(c.bias_g@[i].spec_is_finite());
        assert(is_zero(e[i]));
        assert(c.tg@[3 * i].spec_is_finite() && c.tg@[3 * i + 1].spec_is_finite() && c.tg@[3 * i
            + 2].spec_is_finite());
        assert(is_zero(a[0]) && is_zero(a[1]) && is_zero(a[2]));
        let x = (op.times)(c.tg@[3 * i], a[0]);
        let y = (op.times)(c.tg@[3 * i + 1], a[1]);
        let z = (op.times)(c.tg@[3 * i + 2], a[2]);
        assert(is_zero(x) && is_zero(y) && is_zero(z));
        assert(is_zero((op.plus)(x, y)));
        assert(is_zero((op.plus)((op.plus)(x, y), z)));
        assert(t[i] == (op.plus)((op.plus)(x, y), z));
        assert(is_zero(t[i].spec_neg()));
        assert(w[i] == (op.plus)(e[i], t[i].spec_neg()));
    }
    let g = product(three_by_three(c.r_gyro_to_imu@), three_by_three(c.dw@), op, 3);
    lemma_carried_zeros(g, w, op);
}

/// A larger residual is rejected wherever a smaller one is, and one at the limit is not.
pub proof fn law_larger_residuals_are_rejected(a: FeatureSystem, b: FeatureSystem)
    requires
        a.threshold == b.threshold,
        a.chi2.spec_le(b.chi2),
    ensures
        a.rejected() ==> b.rejected(),
        a.chi2.spec_le(a.threshold) ==> !a.rejected(),
{
}

} // verus!
