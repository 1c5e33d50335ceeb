//! What inertial readings say if the platform stands still.

use vstd::prelude::*;

use crate::algebra::{
    add_matrices, entries, flipped, is, lemma_product, multiply, product, ring, square_of, sum_of,
    three_by_three, unit, Ring,
};
use crate::arith::{apply_one, apply_two, binary, of_one, of_two, unary};
use crate::double::{Double, ONE_BITS};
use crate::matrix::Matrix;
use crate::vio::jacobian::{carried, carry};
use crate::vio::updater_zero_velocity::{assemble_zupt, pair_at, ReadingBlocks};
use crate::void_types::motion::{
    difference3, minus3, plus3, rotate3, rotated3, scaled3, sum3, times3,
};
use crate::void_types::so3::{cross, skew};

verus! {

/// The calibration of the inertial sensor.
#[derive(Clone, Copy, Debug)]
pub struct ImuCalibration {
    /// The bias of the gyroscope.
    pub bias_g: [Double; 3],
    /// The bias of the accelerometer.
    pub bias_a: [Double; 3],
    /// The turn from the gyroscope to the sensor, row by row.
    pub r_gyro_to_imu: [Double; 9],
    /// The turn from the accelerometer to the sensor, row by row.
    pub r_acc_to_imu: [Double; 9],
    /// Scale and skew of the gyroscope, row by row.
    pub dw: [Double; 9],
    /// Scale and skew of the accelerometer, row by row.
    pub da: [Double; 9],
    /// How the gyroscope takes up acceleration, row by row.
    pub tg: [Double; 9],
}

/// One reading of the inertial sensor.
#[derive(Clone, Copy, Debug)]
pub struct ImuReading {
    /// When it was taken.
    pub timestamp: Double,
    /// The angular velocity.
    pub wm: [Double; 3],
    /// The acceleration.
    pub am: [Double; 3],
}

/// The state that readings are compared with.
#[derive(Clone, Copy, Debug)]
pub struct InertialState {
    /// The orientation, from the world to the sensor, row by row.
    pub rot: [Double; 9],
    /// The velocity.
    pub vel: [Double; 3],
    /// Gravity in the world.
    pub gravity: [Double; 3],
    /// The noise of the gyroscope.
    pub sigma_w: Double,
    /// The noise of the accelerometer.
    pub sigma_a: Double,
}

/// The acceleration of a reading, corrected.
pub open spec fn acceleration(c: ImuCalibration, r: ImuReading, op: Ring) -> Seq<Double> {
    carried(
        product(three_by_three(c.r_acc_to_imu@), three_by_three(c.da@), op, 3),
        difference3(r.am@, c.bias_a@, op),
        op,
    )
}

/// The angular velocity of a reading, corrected.
pub open spec fn angular_velocity(c: ImuCalibration, r: ImuReading, op: Ring) -> Seq<Double> {
    carried(
        product(three_by_three(c.r_gyro_to_imu@), three_by_three(c.dw@), op, 3),
        difference3(
            difference3(r.wm@, c.bias_g@, op),
            rotated3(c.tg@, acceleration(c, r, op), op),
            op,
        ),
        op,
    )
}

/// A matrix of nine numbers times another, applied to a vector.
fn through<P: Fn(Double, Double) -> Double, T: Fn(Double, Double) -> Double>(
    a: &[Double; 9],
    b: &[Double; 9],
    v: &[Double; 3],
    plus: &P,
    times: &T,
) -> (r: [Double; 3])
    requires
        binary(*plus),
        binary(*times),
    ensures
        r@ == carried(
            product(three_by_three(a@), three_by_three(b@), ring(*plus, *times), 3),
            v@,
            ring(*plus, *times),
        ),
{
    let ghost op = ring(*plus, *times);
    let x = square_of(a);
    let y = square_of(b);
    let m = multiply(&x, &y, plus, times);
    proof {
        lemma_product(&m, &x, &y, three_by_three(a@), three_by_three(b@), op);
    }
    carry(&m, v, Ghost(product(three_by_three(a@), three_by_three(b@), op, 3)), plus, times)
}

/// Corrects a reading: its angular velocity and its acceleration.
pub fn correct<P: Fn(Double, Double) -> Double, T: Fn(Double, Double) -> Double>(
    c: &ImuCalibration,
    r: &ImuReading,
    plus: &P,
    times: &T,
) -> (both: ([Double; 3], [Double; 3]))
    requires
        binary(*plus),
        binary(*times),
    ensures
        both.0@ == angular_velocity(*c, *r, ring(*plus, *times)),
        both.1@ == acceleration(*c, *r, ring(*plus, *times)),
{
    let a = through(
        &c.r_acc_to_imu,
        &c.da,
        &minus3(&r.am, &c.bias_a, plus, times),
        plus,
        times,
    );
    let taken = rotate3(&c.tg, &a, plus, times);
    let off = minus3(&minus3(&r.wm, &c.bias_g, plus, times), &taken, plus, times);
    (through(&c.r_gyro_to_imu, &c.dw, &off, plus, times), a)
}

/// A matrix times a number.
pub open spec fn scaled(f: spec_fn(int, int) -> Double, k: Double, op: Ring) -> spec_fn(int, int) -> Double {
    |i: int, j: int| (op.times)(f(i, j), k)
}

/// The time from one reading to the next.
pub open spec fn step(readings: Seq<ImuReading>, k: int, op: Ring) -> Double {
    (op.plus)(readings[k + 1].timestamp, readings[k].timestamp.spec_neg())
}

/// The time of the first `n` steps.
pub open spec fn lasted(readings: Seq<ImuReading>, n: int, op: Ring) -> Double
    decreases n,
{
    if n <= 0 {
        Double { bits: 0 }
    } else {
        (op.plus)(lasted(readings, n - 1, op), step(readings, n - 1, op))
    }
}

/// What angular velocity, acceleration and integrated acceleration weigh over a
/// step.
pub open spec fn weights<R: Fn(Double) -> Double, V: Fn(Double, Double) -> Double>(
    at: InertialState,
    dt: Double,
    root: R,
    divide: V,
    op: Ring,
) -> (Double, Double, Double) {
    let r = of_one(root, dt);
    (
        of_two(divide, r, at.sigma_w),
        of_two(divide, r, at.sigma_a),
        of_two(divide, Double { bits: ONE_BITS }, (op.times)(r, at.sigma_a)),
    )
}

/// The residual of a reading: angular velocity and acceleration other than
/// gravity, or the velocity that they add up to, each weighed and negated.
pub open spec fn still_residual(
    w: Seq<Double>,
    a: Seq<Double>,
    at: InertialState,
    dt: Double,
    weight: (Double, Double, Double),
    integrated: bool,
    op: Ring,
) -> Seq<Double> {
    let turning = scaled3(w, weight.0.spec_neg(), op);
    let moving = if integrated {
        scaled3(
            sum3(
                difference3(at.vel@, scaled3(at.gravity@, dt, op), op),
                scaled3(carried(flipped(three_by_three(at.rot@)), a, op), dt, op),
                op,
            ),
            weight.2.spec_neg(),
            op,
        )
    } else {
        scaled3(
            difference3(a, rotated3(at.rot@, at.gravity@, op), op),
            weight.1.spec_neg(),
            op,
        )
    };
    turning + moving
}

/// Whether blocks are the derivatives of a reading's residual.
pub open spec fn are_still_blocks(
    b: &ReadingBlocks,
    a: Seq<Double>,
    at: InertialState,
    dt: Double,
    weight: (Double, Double, Double),
    integrated: bool,
    op: Ring,
) -> bool {
    let back = scaled(flipped(three_by_three(at.rot@)), weight.2.spec_neg(), op);
    &&& is(&b.gyro_bias, 3, 3, scaled(unit(), weight.0.spec_neg(), op))
    &&& is(
        &b.accel_rotation,
        3,
        3,
        if integrated {
            scaled(product(back, cross(a), op, 3), dt, op)
        } else {
            scaled(cross(rotated3(at.rot@, at.gravity@, op)), weight.1.spec_neg(), op)
        },
    )
    &&& is(
        &b.accel_bias,
        3,
        3,
        if integrated {
            scaled(back, dt, op)
        } else {
            scaled(unit(), weight.1.spec_neg(), op)
        },
    )
    &&& is(&b.accel_velocity, 3, 3, scaled(unit(), weight.2, op))
}

/// A matrix of three rows and columns times a number.
fn scale<P: Fn(Double, Double) -> Double, T: Fn(Double, Double) -> Double>(
    m: &Matrix,
    k: Double,
    Ghost(f): Ghost<spec_fn(int, int) -> Double>,
    plus: &P,
    times: &T,
) -> (r: Matrix)
    requires
        is(m, 3, 3, f),
        binary(*plus),
        binary(*times),
    ensures
        is(&r, 3, 3, scaled(f, k, ring(*plus, *times))),
{
    assert(m.has(0, 0) && m.has(0, 1) && m.has(0, 2));
    assert(m.has(1, 0) && m.has(1, 1) && m.has(1, 2));
    assert(m.has(2, 0) && m.has(2, 1) && m.has(2, 2));
    let v = [
        apply_two(times, m.get(0, 0), k),
        apply_two(times, m.get(0, 1), k),
        apply_two(times, m.get(0, 2), k),
        apply_two(times, m.get(1, 0), k),
        apply_two(times, m.get(1, 1), k),
        apply_two(times, m.get(1, 2), k),
        apply_two(times, m.get(2, 0), k),
        apply_two(times, m.get(2, 1), k),
        apply_two(times, m.get(2, 2), k),
    ];
    square_of(&v)
}

/// The identity of three rows and columns times a number.
fn scaled_unit<P: Fn(Double, Double) -> Double, T: Fn(Double, Double) -> Double>(
    k: Double,
    plus: &P,
    times: &T,
) -> (r: Matrix)
    requires
        binary(*plus),
        binary(*times),
    ensures
        is(&r, 3, 3, scaled(unit(), k, ring(*plus, *times))),
{
    let (one, zero) = (Double::one(), Double::zero());
    let m = square_of(&[one, zero, zero, zero, one, zero, zero, zero, one]);
    scale(&m, k, Ghost(unit()), plus, times)
}

/// What one reading says if the platform stands still.
fn still_reading<P: Fn(Double, Double) -> Double, T: Fn(Double, Double) -> Double>(
    w: &[Double; 3],
    a: &[Double; 3],
    at: &InertialState,
    dt: Double,
    weight: (Double, Double, Double),
    integrated: bool,
    plus: &P,
    times: &T,
) -> (said: (ReadingBlocks, [Double; 3], [Double; 3]))
    requires
        binary(*plus),
        binary(*times),
    ensures
        are_still_blocks(&said.0, a@, *at, dt, weight, integrated, ring(*plus, *times)),
        said.1@ + said.2@ == still_residual(
            w@,
            a@,
            *at,
            dt,
            weight,
            integrated,
            ring(*plus, *times),
        ),
{
    let ghost op = ring(*plus, *times);
    let gyro_bias = scaled_unit(weight.0.neg(), plus, times);
    let accel_velocity = scaled_unit(weight.2, plus, times);
    let turning = times3(w, weight.0.neg(), plus, times);
    if integrated {
        let ghost f = flipped(three_by_three(at.rot@));
        let ghost g = scaled(f, weight.2.spec_neg(), op);
        let turn = square_of(&at.rot).transpose();
        assert(is(&turn, 3, 3, f));
        let world = carry(&turn, a, Ghost(f), plus, times);
        let gained = times3(&world, dt, plus, times);
        let fallen = times3(&at.gravity, dt, plus, times);
        let off = plus3(&minus3(&at.vel, &fallen, plus, times), &gained, plus, times);
        let moving = times3(&off, weight.2.neg(), plus, times);
        let back = scale(&turn, weight.2.neg(), Ghost(f), plus, times);
        let k = skew(a);
        let m = multiply(&back, &k, plus, times);
        proof {
            lemma_product(&m, &back, &k, g, cross(a@), op);
        }
        let accel_rotation = scale(&m, dt, Ghost(product(g, cross(a@), op, 3)), plus, times);
        let accel_bias = scale(&back, dt, Ghost(g), plus, times);
        (ReadingBlocks { gyro_bias, accel_rotation, accel_bias, accel_velocity }, turning, moving)
    } else {
        let pull = rotate3(&at.rot, &at.gravity, plus, times);
        let moving = times3(&minus3(a, &pull, plus, times), weight.1.neg(), plus, times);
        let k = skew(&pull);
        let accel_rotation = scale(&k, weight.1.neg(), Ghost(cross(pull@)), plus, times);
        let accel_bias = scaled_unit(weight.1.neg(), plus, times);
        (ReadingBlocks { gyro_bias, accel_rotation, accel_bias, accel_velocity }, turning, moving)
    }
}

/// What readings say if the platform stands still.
#[derive(Debug)]
pub struct StillSystem {
    /// The derivatives, six rows for each pair of readings.
    pub h: Matrix,
    /// The residual.
    pub res: Vec<Double>,
    /// The time from the first reading to the last.
    pub dt_summed: Double,
}

/// The residual of pair `k`.
pub open spec fn residual_of(res: Seq<Double>, k: int) -> Seq<Double> {
    res.subrange(6 * k, 6 * k + 6)
}

/// Whether blocks and residual are what pair `k` of the readings says.
pub open spec fn is_still_pair<R: Fn(Double) -> Double, V: Fn(Double, Double) -> Double>(
    b: &ReadingBlocks,
    res: Seq<Double>,
    readings: Seq<ImuReading>,
    k: int,
    c: ImuCalibration,
    at: InertialState,
    integrated: bool,
    root: R,
    divide: V,
    op: Ring,
) -> bool {
    let dt = step(readings, k, op);
    let weight = weights(at, dt, root, divide, op);
    let w = angular_velocity(c, readings[k], op);
    let a = acceleration(c, readings[k], op);
    &&& are_still_blocks(b, a, at, dt, weight, integrated, op)
    &&& res == still_residual(w, a, at, dt, weight, integrated, op)
}

/// Whether a system is what readings say if the platform stands still, for the
/// given blocks.
pub open spec fn is_still_system<R: Fn(Double) -> Double, V: Fn(Double, Double) -> Double>(
    s: &StillSystem,
    blocks: Seq<ReadingBlocks>,
    readings: Seq<ImuReading>,
    c: ImuCalibration,
    at: InertialState,
    integrated: bool,
    root: R,
    divide: V,
    op: Ring,
) -> bool {
    let n = readings.len() - 1;
    &&& blocks.len() == n
    &&& s.res@.len() == 6 * n
    &&& s.h.shaped(
        6 * n,
        if integrated {
            12
        } else {
            9
        },
    )
    &&& s.dt_summed == lasted(readings, n, op)
    &&& forall|k: int|
        0 <= k < n ==> #[trigger] is_still_pair(
            &blocks[k],
            residual_of(s.res@, k),
            readings,
            k,
            c,
            at,
            integrated,
            root,
            divide,
            op,
        )
    &&& forall|k: int, i: int, j: int|
        0 <= k < n && 0 <= i < 6 && 0 <= j < s.h.width() ==> #[trigger] pair_at(&s.h, k, i, j)
            == blocks[k].entry(integrated, i, j)
}

/// What readings say if the platform stands still: for each but the last, until
/// the next.
pub fn still_system<
    R: Fn(Double) -> Double,
    P: Fn(Double, Double) -> Double,
    T: Fn(Double, Double) -> Double,
    V: Fn(Double, Double) -> Double,
>(
    readings: &Vec<ImuReading>,
    c: &ImuCalibration,
    at: &InertialState,
    integrated: bool,
    root: &R,
    plus: &P,
    times: &T,
    divide: &V,
) -> (s: StillSystem)
    requires
        1 <= readings@.len(),
        72 * readings@.len() <= usize::MAX,
        unary(*root),
        binary(*plus),
        binary(*times),
        binary(*divide),
    ensures
        exists|blocks: Seq<ReadingBlocks>|
            #[trigger] is_still_system(
                &s,
                blocks,
                readings@,
                *c,
                *at,
                integrated,
                *root,
                *divide,
                ring(*plus, *times),
            ),
{
    let ghost op = ring(*plus, *times);
    let n: usize = readings.len() - 1;
    let mut blocks: Vec<ReadingBlocks> = Vec::new();
    let mut res: Vec<Double> = Vec::new();
    let mut dt_summed = Double::zero();
    let mut k: usize = 0;
    while k < n
        invariant
            k <= n,
            n + 1 == readings@.len(),
            op == ring(*plus, *times),
            unary(*root),
            binary(*plus),
            binary(*times),
            binary(*divide),
            blocks@.len() == k,
            res@.len() == 6 * k,
            dt_summed == lasted(readings@, k as int, op),
            forall|q: int| 0 <= q < k ==> (#[trigger] blocks@[q]).wf(),
            forall|q: int|
                0 <= q < k ==> #[trigger] is_still_pair(
                    &blocks@[q],
                    residual_of(res@, q),
                    readings@,
                    q,
                    *c,
                    *at,
                    integrated,
                    *root,
                    *divide,
                    op,
                ),
        decreases n - k,
    {
        let dt = apply_two(plus, readings[k + 1].timestamp, readings[k].timestamp.neg());
        let (w, a) = correct(c, &readings[k], plus, times);
        let r = apply_one(root, dt);
        let weight = (
            apply_two(divide, r, at.sigma_w),
            apply_two(divide, r, at.sigma_a),
            apply_two(divide, Double::one(), apply_two(times, r, at.sigma_a)),
        );
        let (b, turning, moving) = still_reading(&w, &a, at, dt, weight, integrated, plus, times);
        let ghost before = res@;
        let ghost listed = blocks@;
        res.push(turning[0]);
        res.push(turning[1]);
        res.push(turning[2]);
        res.push(moving[0]);
        res.push(moving[1]);
        res.push(moving[2]);
        blocks.push(b);
        dt_summed = apply_two(plus, dt_summed, dt);
        proof {
            assert(residual_of(res@, k as int) =~= turning@ + moving@);
            assert forall|q: int| 0 <= q < k + 1 implies #[trigger] is_still_pair(
                &blocks@[q],
                residual_of(res@, q),
                readings@,
                q,
                *c,
                *at,
                integrated,
                *root,
                *divide,
                op,
            ) by {
                if q < k {
                    assert(is_still_pair(
                        &listed[q],
                        residual_of(before, q),
                        readings@,
                        q,
                        *c,
                        *at,
                        integrated,
                        *root,
                        *divide,
                        op,
                    ));
                    assert(residual_of(res@, q) =~= residual_of(before, q));
                }
            }
        }
        k += 1;
    }
    let h = assemble_zupt(&blocks, integrated);
    let s = StillSystem { h, res, dt_summed };
    assert(is_still_system(
        &s,
        blocks@,
        readings@,
        *c,
        *at,
        integrated,
        *root,
        *divide,
        op,
    ));
    s
}

/// How far the two biases wander over a time.
pub open spec fn wander(dt: Double, sigma_wb_2: Double, sigma_ab_2: Double, op: Ring) -> spec_fn(
    int,
    int,
) -> Double {
    |i: int, j: int|
        if i < 3 && j < 3 {
            scaled(unit(), (op.times)(dt, sigma_wb_2), op)(i, j)
        } else if i >= 3 && j >= 3 {
            scaled(unit(), (op.times)(dt, sigma_ab_2), op)(i - 3, j - 3)
        } else {
            Double { bits: 0 }
        }
}

/// How far the two biases wander over a time.
pub fn bias_wander<P: Fn(Double, Double) -> Double, T: Fn(Double, Double) -> Double>(
    dt: Double,
    sigma_wb_2: Double,
    sigma_ab_2: Double,
    plus: &P,
    times: &T,
) -> (q: Matrix)
    requires
        binary(*plus),
        binary(*times),
    ensures
        is(&q, 6, 6, wander(dt, sigma_wb_2, sigma_ab_2, ring(*plus, *times))),
{
    let gyro = scaled_unit(apply_two(times, dt, sigma_wb_2), plus, times);
    let accel = scaled_unit(apply_two(times, dt, sigma_ab_2), plus, times);
    let mut q = Matrix::filled(6, 6, Double::zero());
    q.set_block(0, 0, &gyro);
    q.set_block(3, 3, &accel);
    let ghost f = wander(dt, sigma_wb_2, sigma_ab_2, ring(*plus, *times));
    assert forall|i: int, j: int| q.has(i, j) implies #[trigger] q.at(i, j) == f(i, j) by {
        if i < 3 && j < 3 {
            assert(gyro.has(i, j));
        } else if i >= 3 && j >= 3 {
            assert(accel.has(i - 3, j - 3));
        }
    }
    q
}

/// A covariance of orientation, biases and more, with what the biases wander added
/// to theirs.
pub open spec fn wandered(
    p: spec_fn(int, int) -> Double,
    q: spec_fn(int, int) -> Double,
    op: Ring,
) -> spec_fn(int, int) -> Double {
    |i: int, j: int|
        if 3 <= i < 9 && 3 <= j < 9 {
            (op.plus)(p(i, j), q(i - 3, j - 3))
        } else {
            p(i, j)
        }
}

/// The covariance of a standstill's residual: that of the state with its biases
/// wandered, seen through the derivatives, and the noise.
pub fn still_innovation<P: Fn(Double, Double) -> Double, T: Fn(Double, Double) -> Double>(
    p: &Matrix,
    q: &Matrix,
    h: &Matrix,
    r: &Matrix,
    plus: &P,
    times: &T,
) -> (s: Matrix)
    requires
        p.shaped(p.height(), p.height()),
        p.height() >= 9,
        q.shaped(6, 6),
        h.shaped(r.height(), p.height()),
        r.shaped(r.height(), r.height()),
        binary(*plus),
        binary(*times),
    ensures
        ({
            let op = ring(*plus, *times);
            let w = p.height();
            let f = wandered(entries(p), entries(q), op);
            is(
                &s,
                r.height(),
                r.height(),
                sum_of(product(product(entries(h), f, op, w), flipped(entries(h)), op, w), entries(r), op),
            )
        }),
{
    let ghost op = ring(*plus, *times);
    let ghost w = p.height();
    let ghost f = wandered(entries(p), entries(q), op);
    proof {
        p.lemma_area();
    }
    let mut more = p.block(0, 0, p.nrows(), p.ncols());
    let biases = p.block(3, 3, 6, 6);
    let raised = add_matrices(&biases, q, plus);
    more.set_block(3, 3, &raised);
    proof {
        h.lemma_area();
        r.lemma_area();
        assert forall|i: int, j: int| more.has(i, j) implies #[trigger] more.at(i, j) == f(i, j) by {
            if 3 <= i < 9 && 3 <= j < 9 {
                assert(raised.has(i - 3, j - 3) && biases.has(i - 3, j - 3));
            }
        }
    }
    let half = multiply(h, &more, plus, times);
    let ht = h.transpose();
    let full = multiply(&half, &ht, plus, times);
    let ghost g = product(entries(h), f, op, w);
    proof {
        lemma_product(&half, h, &more, entries(h), f, op);
        assert(is(&ht, w, r.height(), flipped(entries(h))));
        lemma_product(&full, &half, &ht, g, flipped(entries(h)), op);
    }
    let s = add_matrices(&full, r, plus);
    assert forall|i: int, j: int| s.has(i, j) implies #[trigger] s.at(i, j) == sum_of(
        product(g, flipped(entries(h)), op, w),
        entries(r),
        op,
    )(i, j) by {
        assert(full.has(i, j));
        assert(full.at(i, j) == product(g, flipped(entries(h)), op, w)(i, j));
    }
    s
}

} // verus!
