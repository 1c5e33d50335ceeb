//! The zero-velocity update as a whole: readings are selected, their system is
//! gauged, and where the platform is believed to stand still the filter is updated
//! with it.

use vstd::prelude::*;

use crate::algebra::{entries, flipped, inverts, is, product, ring, sum_of, unit, Ring};
use crate::arith::{
    apply_length, apply_two, binary, counts, length_of, lengths, of_two, unary,
};
use crate::double::Double;
use crate::matrix::Matrix;
use crate::vio::feature_init::{apply_distance, sized, sizes};
use crate::vio::feature_update::{on_diagonal, pixel_noise};
use crate::vio::givens::{cancels, mixes, Rotation};
use crate::vio::estimates::{calibration_of, Estimates};
use crate::vio::kalman::{
    ekf_propagation, lemma_marginal, marginal, propagated_covariance, UpdateFault,
};
use crate::vio::standstill::{
    bias_wander, is_still_system, still_innovation, still_system, wander, wandered,
    ImuCalibration, ImuReading, InertialState, StillSystem,
};
use crate::vio::state::{Run, State};
use crate::vio::state_helper::{
    all_good, column, first_bad, get_marginal_covariance, in_rows,
};
use crate::vio::updater::{chi2_95, percentile, tells_percentiles};
use crate::vio::updater_helper::{compressed, measurement_compress_inplace, Feature};
use crate::vio::updater_zero_velocity::{
    compute_disparity, disparity_of, tells_distance, zupt_runs, ReadingBlocks,
    UpdaterZeroVelocity, ZuptAssessment, ZuptVerdict,
};
use crate::vio::values::{ekf_update, filter_updated, turns};

verus! {

/// Whether readings can be selected from an offset on, always the same, and not
/// more than the machine can hold a system of.
pub open spec fn selects<S: Fn(Double) -> Option<Vec<ImuReading>>>(select: S) -> bool {
    &&& forall|t: Double| #[trigger] call_requires(select, (t,))
    &&& forall|t: Double, a: Option<Vec<ImuReading>>, b: Option<Vec<ImuReading>>| #[trigger]
        call_ensures(select, (t,), a) && #[trigger] call_ensures(select, (t,), b) ==> a == b
    &&& forall|t: Double, a: Option<Vec<ImuReading>>| #[trigger]
        call_ensures(select, (t,), a) ==> (a matches Some(v) ==> 72 * v@.len() <= usize::MAX)
}

/// The readings that are selected from an offset on.
pub open spec fn selected_from<S: Fn(Double) -> Option<Vec<ImuReading>>>(
    select: S,
    offset: Double,
) -> Option<Vec<ImuReading>> {
    choose|r: Option<Vec<ImuReading>>| call_ensures(select, (offset,), r)
}

/// What a zero-velocity update works with.
#[derive(Clone, Copy, Debug)]
pub struct StillInputs {
    /// The calibration of the inertial sensor.
    pub calibration: ImuCalibration,
    /// The state that readings are compared with.
    pub inertial: InertialState,
    /// How fast the bias of the gyroscope wanders, squared.
    pub sigma_wb_2: Double,
    /// How fast the bias of the accelerometer wanders, squared.
    pub sigma_ab_2: Double,
    /// The time offset of the cameras.
    pub t_off: Double,
}

/// The size of gravity: 9.81.
pub const GRAVITY: u64 = 0x4023_9EB8_51EB_851F;

/// The noise of the inertial sensor.
#[derive(Clone, Copy, Debug)]
pub struct ImuNoise {
    /// The noise of the gyroscope.
    pub sigma_w: Double,
    /// The noise of the accelerometer.
    pub sigma_a: Double,
    /// How fast the bias of the gyroscope wanders, squared.
    pub sigma_wb_2: Double,
    /// How fast the bias of the accelerometer wanders, squared.
    pub sigma_ab_2: Double,
}

/// Whether a zero-velocity update works with a state, its estimates and the noise of
/// the sensor. The orientation is the first estimate where first estimates are used.
pub open spec fn inputs_of(inputs: StillInputs, st: &State, values: &Estimates, noise: ImuNoise) -> bool {
    let z = Double { bits: 0 };
    &&& calibration_of(inputs.calibration, st.options.imu_model, values)
    &&& inputs.inertial.rot == (if st.options.do_fej {
        values.inertial_first.pose.rot
    } else {
        values.inertial.pose.rot
    })
    &&& inputs.inertial.vel == values.inertial.vel
    &&& inputs.inertial.gravity@ == seq![z, z, Double { bits: GRAVITY }]
    &&& inputs.inertial.sigma_w == noise.sigma_w
    &&& inputs.inertial.sigma_a == noise.sigma_a
    &&& inputs.sigma_wb_2 == noise.sigma_wb_2
    &&& inputs.sigma_ab_2 == noise.sigma_ab_2
    &&& inputs.t_off == st.spec_time_offset(values)
}

/// What a zero-velocity update works with.
fn still_inputs(state: &State, values: &Estimates, noise: &ImuNoise) -> (inputs: StillInputs)
    ensures
        inputs_of(inputs, state, values, *noise),
{
    let gravity = [Double::zero(), Double::zero(), Double { bits: GRAVITY }];
    assert(gravity@ =~= seq![Double { bits: 0 }, Double { bits: 0 }, Double { bits: GRAVITY }]);
    StillInputs {
        calibration: state.imu_calibration(values),
        inertial: InertialState {
            rot: if state.options.do_fej {
                values.inertial_first.pose.rot
            } else {
                values.inertial.pose.rot
            },
            vel: values.inertial.vel,
            gravity,
            sigma_w: noise.sigma_w,
            sigma_a: noise.sigma_a,
        },
        sigma_wb_2: noise.sigma_wb_2,
        sigma_ab_2: noise.sigma_ab_2,
        t_off: state.time_offset(values),
    }
}

/// What the readings of an attempt came to.
pub struct StillParts {
    /// Their system.
    pub whole: StillSystem,
    /// The system after compression.
    pub small: StillSystem,
    /// The covariance of the variables that it touches.
    pub marginal: Matrix,
    /// How far the biases wander.
    pub wander: Matrix,
    /// The noise.
    pub noise: Matrix,
}

/// The covariance of the residual of a standstill.
pub open spec fn still_spread(parts: &StillParts, op: Ring) -> spec_fn(int, int) -> Double {
    let w = parts.marginal.height();
    let h = entries(&parts.small.h);
    sum_of(
        product(
            product(h, wandered(entries(&parts.marginal), entries(&parts.wander), op), op, w),
            flipped(h),
            op,
            w,
        ),
        entries(&parts.noise),
        op,
    )
}

/// Whether parts are those of readings: their system as for a standstill, compressed,
/// with the covariance of what it touches, the wander of the biases over the time
/// and the noise.
pub open spec fn parts_of<
    E: Fn(Double, Double) -> Option<Rotation>,
    R: Fn(Rotation, Double, Double) -> (Double, Double),
    O: Fn(Double) -> Double,
    V: Fn(Double, Double) -> Double,
>(
    parts: StillParts,
    u: UpdaterZeroVelocity,
    st: &State,
    readings: Seq<ImuReading>,
    inputs: StillInputs,
    cancel: E,
    rotate: R,
    root: O,
    divide: V,
    op: Ring,
) -> bool {
    let integrated = u.integrated_accel_constraint;
    let order = zupt_runs(st, integrated);
    let w = column(order, order.len() as int);
    let n = parts.small.res@.len() as int;
    &&& exists|blocks: Seq<ReadingBlocks>| #[trigger]
        is_still_system(
            &parts.whole,
            blocks,
            readings,
            inputs.calibration,
            inputs.inertial,
            integrated,
            root,
            divide,
            op,
        )
    &&& compressed(
        &parts.small.h,
        parts.small.res@,
        &parts.whole.h,
        parts.whole.res@,
        cancel,
        rotate,
    )
    &&& is(&parts.marginal, w, w, marginal(entries(&st.cov), order))
    &&& is(
        &parts.wander,
        6,
        6,
        wander(parts.whole.dt_summed, inputs.sigma_wb_2, inputs.sigma_ab_2, op),
    )
    &&& is(&parts.noise, n, n, on_diagonal(u.zupt_noise_multiplier))
}

/// How an attempt is weighed: the size of its residual with the largest that is
/// allowed, the disparity of the images, and the speed.
pub open spec fn assessment<
    M: Fn(&Matrix, &Vec<Double>) -> Double,
    W: Fn(usize) -> Double,
    L: Fn([Double; 3]) -> Double,
    T: Fn(Double, Double) -> Double,
>(
    parts: StillParts,
    u: UpdaterZeroVelocity,
    inputs: StillInputs,
    disparity: Option<(Double, Double, usize)>,
    distance: M,
    wide: W,
    length: L,
    times: T,
    op: Ring,
) -> ZuptAssessment {
    let n = parts.small.res.len();
    ZuptAssessment {
        rows: n,
        chi2: sized(distance, still_spread(&parts, op), parts.small.res@),
        threshold: of_two(times, u.options.chi2_multipler, percentile(wide, n)),
        disparity: match disparity {
            Some((mean, _, count)) => Some((mean, count)),
            None => None,
        },
        speed: length_of(length, inputs.inertial.vel@),
    }
}

/// The two biases.
pub open spec fn bias_runs(st: &State) -> Seq<Run> {
    seq![((st.imu.id + 9) as i32, 3usize), ((st.imu.id + 12) as i32, 3usize)]
}

/// Whether a filter became another by a standstill: the biases wander, the system
/// updates the filter, and the state is at the given time. A fault leaves it before.
pub open spec fn stood_still<
    I: Fn(&Matrix) -> Option<Matrix>,
    U: Fn([Double; 9], [Double; 3]) -> [Double; 9],
    P: Fn(Double, Double) -> Double,
>(
    parts: StillParts,
    u: UpdaterZeroVelocity,
    before: &State,
    waited: State,
    still: Matrix,
    after: &State,
    values: &Estimates,
    moved: &Estimates,
    timestamp: Double,
    solve: I,
    turn: U,
    plus: P,
    op: Ring,
    done: Result<Vec<Double>, UpdateFault>,
) -> bool {
    let biases = bias_runs(before);
    let commits = |upto: State|
        filter_updated(
            &waited,
            &upto,
            values,
            moved,
            zupt_runs(before, u.integrated_accel_constraint),
            &parts.small.h,
            parts.small.res@,
            &parts.noise,
            solve,
            turn,
            plus,
            op,
            done,
        );
    &&& is(&still, 6, 6, unit())
    &&& waited == (State { cov: waited.cov, ..*before })
    &&& is(
        &waited.cov,
        before.dim(),
        before.dim(),
        propagated_covariance(
            entries(&before.cov),
            entries(&still),
            entries(&parts.wander),
            biases,
            biases,
            op,
        ),
    )
    &&& if !all_good(&waited.cov) {
        &&& *after == waited
        &&& *moved == *values
        &&& exists|k: usize|
            #[trigger] first_bad(&waited.cov, k as int) && done == Err::<Vec<Double>, UpdateFault>(
                UpdateFault::Negative(k),
            )
    } else {
        match done {
            Ok(_) => after.timestamp == timestamp && commits(
                State { timestamp: before.timestamp, ..*after },
            ),
            Err(_) => commits(*after),
        }
    }
}

/// The increment of an attempt, without its verdict.
pub open spec fn increment_of(done: Result<(ZuptVerdict, Vec<Double>), UpdateFault>) -> Result<
    Vec<Double>,
    UpdateFault,
> {
    match done {
        Ok(both) => Ok(both.1),
        Err(e) => Err(e),
    }
}

/// What an attempt with enough readings comes to.
pub open spec fn weighed_as<
    I: Fn(&Matrix) -> Option<Matrix>,
    U: Fn([Double; 9], [Double; 3]) -> [Double; 9],
    P: Fn(Double, Double) -> Double,
>(
    parts: StillParts,
    a: ZuptAssessment,
    u: UpdaterZeroVelocity,
    v: UpdaterZeroVelocity,
    before: &State,
    after: &State,
    values: &Estimates,
    moved: &Estimates,
    timestamp: Double,
    solve: I,
    turn: U,
    plus: P,
    op: Ring,
    done: Result<(ZuptVerdict, Vec<Double>), UpdateFault>,
) -> bool {
    let stays = *after == *before && *moved == *values && done is Ok && done->Ok_0.1@.len() == 0;
    if a.rows < 1 {
        stays && done->Ok_0.0 is Empty && v == u
    } else if u.refuses(a) {
        stays && done->Ok_0.0 is Rejected && v == (UpdaterZeroVelocity {
            last_zupt_count: 0,
            ..u.gave_up()
        })
    } else {
        &&& exists|waited: State, still: Matrix| #[trigger]
            stood_still(
                parts,
                u,
                before,
                waited,
                still,
                after,
                values,
                moved,
                timestamp,
                solve,
                turn,
                plus,
                op,
                increment_of(done),
            )
        &&& match done {
            Ok(both) => both.0 == ZuptVerdict::Accepted(
                if u.last_zupt_count >= 2 {
                    Some(u.last_zupt_state_timestamp)
                } else {
                    None
                },
            ) && v == (UpdaterZeroVelocity {
                last_zupt_state_timestamp: timestamp,
                last_zupt_count: (u.last_zupt_count + 1) as usize,
                ..u
            }),
            Err(_) => v == u,
        }
    }
}

/// What an attempt comes to.
pub open spec fn attempted<
    S: Fn(Double) -> Option<Vec<ImuReading>>,
    E: Fn(Double, Double) -> Option<Rotation>,
    R: Fn(Rotation, Double, Double) -> (Double, Double),
    M: Fn(&Matrix, &Vec<Double>) -> Double,
    W: Fn(usize) -> Double,
    L: Fn([Double; 3]) -> Double,
    G: Fn([Double; 2], [Double; 2]) -> Double,
    N: Fn(usize) -> Double,
    O: Fn(Double) -> Double,
    I: Fn(&Matrix) -> Option<Matrix>,
    U: Fn([Double; 9], [Double; 3]) -> [Double; 9],
    P: Fn(Double, Double) -> Double,
    T: Fn(Double, Double) -> Double,
    V: Fn(Double, Double) -> Double,
>(
    u: UpdaterZeroVelocity,
    v: UpdaterZeroVelocity,
    before: &State,
    after: &State,
    values: &Estimates,
    moved: &Estimates,
    timestamp: Double,
    available: usize,
    inputs: StillInputs,
    features: Seq<Feature>,
    select: S,
    cancel: E,
    rotate: R,
    distance: M,
    wide: W,
    length: L,
    apart: G,
    number: N,
    root: O,
    solve: I,
    turn: U,
    plus: P,
    times: T,
    divide: V,
    done: Result<(ZuptVerdict, Vec<Double>), UpdateFault>,
) -> bool {
    let op = ring(plus, times);
    let started = u.offset_known(inputs.t_off);
    let chosen = selected_from(select, started.last_prop_time_offset);
    let on = UpdaterZeroVelocity { last_prop_time_offset: inputs.t_off, ..started };
    let nothing = *after == *before && *moved == *values && done is Ok && done->Ok_0.0 is Empty
        && done->Ok_0.1@.len() == 0;
    if available == 0 || before.timestamp == timestamp {
        nothing && v == u.gave_up()
    } else if chosen is None {
        nothing && v == started.gave_up()
    } else if chosen->0@.len() < 2 {
        nothing && v == on.gave_up()
    } else {
        exists|parts: StillParts|
            {
                &&& #[trigger] parts_of(
                    parts,
                    on,
                    before,
                    chosen->0@,
                    inputs,
                    cancel,
                    rotate,
                    root,
                    divide,
                    op,
                )
                &&& weighed_as(
                    parts,
                    assessment(
                        parts,
                        on,
                        inputs,
                        disparity_of(
                            features,
                            before.timestamp,
                            timestamp,
                            apart,
                            number,
                            divide,
                            op,
                        ),
                        distance,
                        wide,
                        length,
                        times,
                        op,
                    ),
                    on,
                    v,
                    before,
                    after,
                    values,
                    moved,
                    timestamp,
                    solve,
                    turn,
                    plus,
                    op,
                    done,
                )
            }
    }
}

/// The identity of six rows and columns.
fn six_unit() -> (m: Matrix)
    ensures
        is(&m, 6, 6, unit()),
{
    let mut m = Matrix::filled(6, 6, Double::zero());
    m.set_diagonal(0, 6, Double::one());
    m
}

/// The columns of a zero-velocity system lie in the covariance.
proof fn lemma_zupt_rows(st: &State, integrated: bool)
    requires
        st.wf(),
    ensures
        in_rows(zupt_runs(st, integrated), st.dim()),
        in_rows(bias_runs(st), st.dim()),
        column(zupt_runs(st, integrated), zupt_runs(st, integrated).len() as int) == (
        if integrated {
            12int
        } else {
            9
        }),
        column(bias_runs(st), 2) == 6,
        15 <= st.dim(),
        st.dim() * 12 <= usize::MAX,
{
    reveal_with_fuel(column, 5);
    let o = st.options;
    let stride = crate::vio::state::camera_stride(o);
    assert(0 <= o.num_cameras * stride) by (nonlinear_arith)
        requires
            0 <= o.num_cameras,
            0 <= stride,
    ;
    st.cov.lemma_area();
    let d = st.dim();
    assert(d * 12 <= d * d) by (nonlinear_arith)
        requires
            12 <= d,
    ;
}

/// Updates the filter with a standstill: the biases wander and the system is
/// committed. The state's time is left to the caller, who knows that it went well.
fn stand_still<
    I: Fn(&Matrix) -> Option<Matrix>,
    U: Fn([Double; 9], [Double; 3]) -> [Double; 9],
    P: Fn(Double, Double) -> Double,
    T: Fn(Double, Double) -> Double,
>(
    integrated: bool,
    state: &mut State,
    values: &mut Estimates,
    order: &Vec<(i32, usize)>,
    h: &Matrix,
    res: &Vec<Double>,
    q: &Matrix,
    noise: &Matrix,
    solve: &I,
    turn: &U,
    plus: &P,
    times: &T,
    Ghost(parts): Ghost<StillParts>,
    Ghost(u): Ghost<UpdaterZeroVelocity>,
    timestamp: Double,
) -> (done: Result<Vec<Double>, UpdateFault>)
    requires
        old(state).wf(),
        old(values).fits(old(state)),
        u.integrated_accel_constraint == integrated,
        order@ == zupt_runs(old(state), integrated),
        *h == parts.small.h,
        *res == parts.small.res,
        *q == parts.wander,
        *noise == parts.noise,
        h.shaped(res@.len() as int, column(order@, order@.len() as int)),
        noise.shaped(res@.len() as int, res@.len() as int),
        q.shaped(6, 6),
        res@.len() <= 12,
        inverts(*solve),
        turns(*turn),
        binary(*plus),
        binary(*times),
    ensures
        final(state).wf(),
        final(values).fits(final(state)),
        final(state).dim() == old(state).dim(),
        final(state).runs() == old(state).runs(),
        final(state).clones_imu == old(state).clones_imu,
        final(state).timestamp == old(state).timestamp,
        exists|waited: State, still: Matrix| #[trigger]
            stood_still(
                parts,
                u,
                old(state),
                waited,
                still,
                &arrived(*final(state), done, timestamp),
                old(values),
                final(values),
                timestamp,
                *solve,
                *turn,
                *plus,
                ring(*plus, *times),
                done,
            ),
{
    let ghost op = ring(*plus, *times);
    let ghost before = *state;
    let ghost first = *values;
    proof {
        lemma_zupt_rows(state, integrated);
        let d = state.dim();
        let n = res@.len() as int;
        assert(d * n <= d * 12) by (nonlinear_arith)
            requires
                0 <= n <= 12,
                0 <= d,
        ;
    }
    let id: i32 = state.imu.id;
    let biases: Vec<(i32, usize)> = vec![(id + 9, 3), (id + 12, 3)];
    assert(biases@ =~= bias_runs(&before));
    let still = six_unit();
    let waited = ekf_propagation(state, &biases, &biases, &still, q, plus, times);
    let ghost middle = *state;
    assert(middle.runs() =~= before.runs());
    match waited {
        Err(k) => {
            let done = Err(UpdateFault::Negative(k));
            proof {
                assert(first_bad(&middle.cov, k as int));
                assert(!all_good(&middle.cov));
                assert(stood_still(
                    parts,
                    u,
                    &before,
                    middle,
                    still,
                    &arrived(*state, done, timestamp),
                    &first,
                    values,
                    timestamp,
                    *solve,
                    *turn,
                    *plus,
                    op,
                    done,
                ));
            }
            return done;
        },
        Ok(_) => {},
    }
    let done = ekf_update(state, values, order, h, res, noise, solve, turn, plus, times);
    proof {
        let end = arrived(*state, done, timestamp);
        assert(State { timestamp: before.timestamp, ..end } == *state);
        assert(stood_still(
            parts,
            u,
            &before,
            middle,
            still,
            &end,
            &first,
            values,
            timestamp,
            *solve,
            *turn,
            *plus,
            op,
            done,
        ));
    }
    done
}

/// The state at a time, if all went well.
pub open spec fn arrived(st: State, done: Result<Vec<Double>, UpdateFault>, timestamp: Double) -> State {
    if done is Ok {
        State { timestamp, ..st }
    } else {
        st
    }
}

impl UpdaterZeroVelocity {
    /// Weighs readings: their compressed system, the wander of the biases, the noise,
    /// and the size of the residual with the largest that is allowed.
    fn weigh<
        E: Fn(Double, Double) -> Option<Rotation>,
        R: Fn(Rotation, Double, Double) -> (Double, Double),
        M: Fn(&Matrix, &Vec<Double>) -> Double,
        W: Fn(usize) -> Double,
        O: Fn(Double) -> Double,
        P: Fn(Double, Double) -> Double,
        T: Fn(Double, Double) -> Double,
        V: Fn(Double, Double) -> Double,
    >(
        &self,
        state: &State,
        readings: &Vec<ImuReading>,
        order: &Vec<(i32, usize)>,
        inputs: &StillInputs,
        cancel: &E,
        rotate: &R,
        distance: &M,
        wide: &W,
        root: &O,
        plus: &P,
        times: &T,
        divide: &V,
    ) -> (w: (Matrix, Vec<Double>, Matrix, Matrix, Double, Double, Ghost<StillParts>))
        requires
            state.wf(),
            2 <= readings@.len(),
            72 * readings@.len() <= usize::MAX,
            order@ == zupt_runs(state, self.integrated_accel_constraint),
            cancels(*cancel),
            mixes(*rotate),
            sizes(*distance),
            tells_percentiles(*wide),
            unary(*root),
            binary(*plus),
            binary(*times),
            binary(*divide),
        ensures
            w.0 == w.6@.small.h,
            w.1 == w.6@.small.res,
            w.2 == w.6@.wander,
            w.3 == w.6@.noise,
            w.0.shaped(w.1@.len() as int, column(order@, order@.len() as int)),
            w.1@.len() <= 12,
            w.4 == sized(*distance, still_spread(&w.6@, ring(*plus, *times)), w.1@),
            w.5 == of_two(*times, self.options.chi2_multipler, percentile(*wide, w.1.len())),
            parts_of(
                w.6@,
                *self,
                state,
                readings@,
                *inputs,
                *cancel,
                *rotate,
                *root,
                *divide,
                ring(*plus, *times),
            ),
    {
        let ghost op = ring(*plus, *times);
        proof {
            lemma_zupt_rows(state, self.integrated_accel_constraint);
        }
        let whole = still_system(
            readings,
            &inputs.calibration,
            &inputs.inertial,
            self.integrated_accel_constraint,
            root,
            plus,
            times,
            divide,
        );
        let ghost uncompressed = whole;
        let ghost blocks = choose|blocks: Seq<ReadingBlocks>|
            #[trigger] is_still_system(
                &whole,
                blocks,
                readings@,
                inputs.calibration,
                inputs.inertial,
                self.integrated_accel_constraint,
                *root,
                *divide,
                op,
            );
        let StillSystem { mut h, mut res, dt_summed } = whole;
        proof {
            h.lemma_area();
        }
        measurement_compress_inplace(&mut h, &mut res, cancel, rotate);
        let n: usize = res.len();
        proof {
            assert(n <= 12);
            assert(n * n <= 144) by (nonlinear_arith)
                requires
                    0 <= n <= 12,
            ;
        }
        let noise = pixel_noise(n, self.zupt_noise_multiplier);
        let q = bias_wander(dt_summed, inputs.sigma_wb_2, inputs.sigma_ab_2, plus, times);
        let p = get_marginal_covariance(state, order);
        proof {
            lemma_marginal(&p, &state.cov, order@);
        }
        let s = still_innovation(&p, &q, &h, &noise, plus, times);
        let ghost parts = StillParts {
            whole: uncompressed,
            small: StillSystem { h, res, dt_summed },
            marginal: p,
            wander: q,
            noise,
        };
        let chi2 = apply_distance(&s, &res, distance, Ghost(still_spread(&parts, op)));
        let threshold = apply_two(times, self.options.chi2_multipler, chi2_95(n, wide));
        assert(is_still_system(
            &parts.whole,
            blocks,
            readings@,
            inputs.calibration,
            inputs.inertial,
            self.integrated_accel_constraint,
            *root,
            *divide,
            op,
        ));
        (h, res, q, noise, chi2, threshold, Ghost(parts))
    }

    /// Attempts an update to `timestamp`: selects readings, builds and compresses
    /// their system as for a standstill, and weighs it by its residual, the speed
    /// and the images. Where the standstill is believed, the biases wander, the
    /// filter is updated and the state is at `timestamp`, without a clone there;
    /// measurements at the time in the verdict are to be dropped.
    pub fn try_update<
        S: Fn(Double) -> Option<Vec<ImuReading>>,
        E: Fn(Double, Double) -> Option<Rotation>,
        R: Fn(Rotation, Double, Double) -> (Double, Double),
        M: Fn(&Matrix, &Vec<Double>) -> Double,
        W: Fn(usize) -> Double,
        L: Fn([Double; 3]) -> Double,
        G: Fn([Double; 2], [Double; 2]) -> Double,
        N: Fn(usize) -> Double,
        O: Fn(Double) -> Double,
        I: Fn(&Matrix) -> Option<Matrix>,
        U: Fn([Double; 9], [Double; 3]) -> [Double; 9],
        P: Fn(Double, Double) -> Double,
        T: Fn(Double, Double) -> Double,
        V: Fn(Double, Double) -> Double,
    >(
        &mut self,
        state: &mut State,
        values: &mut Estimates,
        timestamp: Double,
        available: usize,
        noise: &ImuNoise,
        features: &Vec<Feature>,
        select: &S,
        cancel: &E,
        rotate: &R,
        distance: &M,
        wide: &W,
        length: &L,
        apart: &G,
        number: &N,
        root: &O,
        solve: &I,
        turn: &U,
        plus: &P,
        times: &T,
        divide: &V,
    ) -> (done: Result<(ZuptVerdict, Vec<Double>), UpdateFault>)
        requires
            old(state).wf(),
            old(values).fits(old(state)),
            old(self).last_zupt_count < usize::MAX,
            forall|f: int| 0 <= f < features@.len() ==> (#[trigger] features@[f]).has_pixels(),
            selects(*select),
            cancels(*cancel),
            mixes(*rotate),
            sizes(*distance),
            tells_percentiles(*wide),
            lengths(*length),
            tells_distance(*apart),
            counts(*number),
            unary(*root),
            inverts(*solve),
            turns(*turn),
            binary(*plus),
            binary(*times),
            binary(*divide),
        ensures
            final(state).wf(),
            final(values).fits(final(state)),
            final(state).dim() == old(state).dim(),
            final(state).runs() == old(state).runs(),
            final(state).clones_imu == old(state).clones_imu,
            done matches Ok(both) ==> {
                &&& both.0 is Accepted ==> final(state).timestamp == timestamp
                &&& !(both.0 is Accepted) ==> *final(state) == *old(state) && *final(values) == *old(
                    values,
                )
            },
            exists|inputs: StillInputs|
                #[trigger] inputs_of(inputs, old(state), old(values), *noise) && attempted(
                    *old(self),
                    *final(self),
                    old(state),
                    final(state),
                    old(values),
                    final(values),
                    timestamp,
                    available,
                    inputs,
                    features@,
                    *select,
                    *cancel,
                    *rotate,
                    *distance,
                    *wide,
                    *length,
                    *apart,
                    *number,
                    *root,
                    *solve,
                    *turn,
                    *plus,
                    *times,
                    *divide,
                    done,
                ),
    {
        let ghost op = ring(*plus, *times);
        let ghost before = *state;
        let ghost first = *values;
        let inputs = still_inputs(state, values, noise);
        proof {
            lemma_zupt_rows(state, self.integrated_accel_constraint);
        }
        let offset = match self.begin(state, timestamp, available, inputs.t_off) {
            None => {
                return Ok((ZuptVerdict::Empty, Vec::new()));
            },
            Some(t) => t,
        };
        let chosen = select(offset);
        proof {
            assert(call_ensures(*select, (offset,), chosen));
            assert(call_ensures(*select, (offset,), selected_from(*select, offset)));
        }
        let count = match &chosen {
            None => None,
            Some(list) => Some(list.len()),
        };
        let layout = self.readings_selected(state, count, inputs.t_off);
        let (readings, order) = match (chosen, layout) {
            (Some(list), Some(l)) => (list, l.order),
            _ => {
                return Ok((ZuptVerdict::Empty, Vec::new()));
            },
        };
        let ghost on = *self;
        let (h, res, q, spread, chi2, threshold, Ghost(parts)) = self.weigh(
            state,
            &readings,
            &order,
            &inputs,
            cancel,
            rotate,
            distance,
            wide,
            root,
            plus,
            times,
            divide,
        );
        let n: usize = res.len();
        let seen = compute_disparity(
            features,
            state.timestamp,
            timestamp,
            apart,
            number,
            plus,
            times,
            divide,
        );
        let disparity = match seen {
            Some((mean, _, k)) => Some((mean, k)),
            None => None,
        };
        let speed = apply_length(length, inputs.inertial.vel);
        let ghost a = assessment(
            parts,
            on,
            inputs,
            seen,
            *distance,
            *wide,
            *length,
            *times,
            op,
        );
        assert(a == (ZuptAssessment { rows: n, chi2, threshold, disparity, speed }));
        let verdict = self.judge(n, chi2, threshold, disparity, speed);
        match verdict {
            ZuptVerdict::Accepted(_) => {},
            _ => {
                return Ok((verdict, Vec::new()));
            },
        }
        match stand_still(
            self.integrated_accel_constraint,
            state,
            values,
            &order,
            &h,
            &res,
            &q,
            &spread,
            solve,
            turn,
            plus,
            times,
            Ghost(parts),
            Ghost(on),
            timestamp,
        ) {
            Err(e) => Err(e),
            Ok(dx) => {
                let ghost upto = *state;
                self.commit(state, timestamp);
                assert(state.runs() =~= upto.runs());
                Ok((verdict, dx))
            },
        }
    }
}

/// A platform that moves is never taken to stand still: unless more than twenty
/// features moved by less than the limit on average, no attempt is accepted while the
/// length of the state's velocity is greater than the limit. The filter and its
/// estimates then stay as they are.
pub proof fn law_fast_states_do_not_stand_still<
    S: Fn(Double) -> Option<Vec<ImuReading>>,
    E: Fn(Double, Double) -> Option<Rotation>,
    R: Fn(Rotation, Double, Double) -> (Double, Double),
    M: Fn(&Matrix, &Vec<Double>) -> Double,
    W: Fn(usize) -> Double,
    L: Fn([Double; 3]) -> Double,
    G: Fn([Double; 2], [Double; 2]) -> Double,
    N: Fn(usize) -> Double,
    O: Fn(Double) -> Double,
    I: Fn(&Matrix) -> Option<Matrix>,
    U: Fn([Double; 9], [Double; 3]) -> [Double; 9],
    P: Fn(Double, Double) -> Double,
    T: Fn(Double, Double) -> Double,
    V: Fn(Double, Double) -> Double,
>(
    u: UpdaterZeroVelocity,
    v: UpdaterZeroVelocity,
    before: &State,
    after: &State,
    values: &Estimates,
    moved: &Estimates,
    timestamp: Double,
    available: usize,
    inputs: StillInputs,
    features: Seq<Feature>,
    select: S,
    cancel: E,
    rotate: R,
    distance: M,
    wide: W,
    length: L,
    apart: G,
    number: N,
    root: O,
    solve: I,
    turn: U,
    plus: P,
    times: T,
    divide: V,
    done: Result<(ZuptVerdict, Vec<Double>), UpdateFault>,
    noise: ImuNoise,
)
    requires
        inputs_of(inputs, before, values, noise),
        attempted(
            u,
            v,
            before,
            after,
            values,
            moved,
            timestamp,
            available,
            inputs,
            features,
            select,
            cancel,
            rotate,
            distance,
            wide,
            length,
            apart,
            number,
            root,
            solve,
            turn,
            plus,
            times,
            divide,
            done,
        ),
        u.zupt_max_velocity.spec_lt(length_of(length, values.inertial.vel@)),
        match disparity_of(
            features,
            before.timestamp,
            timestamp,
            apart,
            number,
            divide,
            ring(plus, times),
        ) {
            Some((mean, _, count)) => count <= 20 || !mean.spec_lt(u.zupt_max_disparity),
            None => true,
        },
    ensures
        done is Ok,
        !(done->Ok_0.0 is Accepted),
        done->Ok_0.1@.len() == 0,
        *after == *before,
        *moved == *values,
{
}

/// An image that shows a standstill overrules speed and residual: where more than
/// twenty features moved by less than the limit on average, no attempt is rejected.
/// What is accepted takes the state to the time of the image.
pub proof fn law_still_images_are_believed<
    S: Fn(Double) -> Option<Vec<ImuReading>>,
    E: Fn(Double, Double) -> Option<Rotation>,
    R: Fn(Rotation, Double, Double) -> (Double, Double),
    M: Fn(&Matrix, &Vec<Double>) -> Double,
    W: Fn(usize) -> Double,
    L: Fn([Double; 3]) -> Double,
    G: Fn([Double; 2], [Double; 2]) -> Double,
    N: Fn(usize) -> Double,
    O: Fn(Double) -> Double,
    I: Fn(&Matrix) -> Option<Matrix>,
    U: Fn([Double; 9], [Double; 3]) -> [Double; 9],
    P: Fn(Double, Double) -> Double,
    T: Fn(Double, Double) -> Double,
    V: Fn(Double, Double) -> Double,
>(
    u: UpdaterZeroVelocity,
    v: UpdaterZeroVelocity,
    before: &State,
    after: &State,
    values: &Estimates,
    moved: &Estimates,
    timestamp: Double,
    available: usize,
    inputs: StillInputs,
    features: Seq<Feature>,
    select: S,
    cancel: E,
    rotate: R,
    distance: M,
    wide: W,
    length: L,
    apart: G,
    number: N,
    root: O,
    solve: I,
    turn: U,
    plus: P,
    times: T,
    divide: V,
    done: Result<(ZuptVerdict, Vec<Double>), UpdateFault>,
)
    requires
        attempted(
            u,
            v,
            before,
            after,
            values,
            moved,
            timestamp,
            available,
            inputs,
            features,
            select,
            cancel,
            rotate,
            distance,
            wide,
            length,
            apart,
            number,
            root,
            solve,
            turn,
            plus,
            times,
            divide,
            done,
        ),
    ensures
        done is Ok && done->Ok_0.0 is Accepted ==> after.timestamp == timestamp
            && v.last_zupt_state_timestamp == timestamp && before.timestamp != timestamp && available
            > 0,
        !(done is Ok && done->Ok_0.0 is Accepted) ==> after.timestamp == before.timestamp,
        match disparity_of(
            features,
            before.timestamp,
            timestamp,
            apart,
            number,
            divide,
            ring(plus, times),
        ) {
            Some((mean, _, count)) => count > 20 && mean.spec_lt(u.zupt_max_disparity) ==> !(done is Ok
                && done->Ok_0.0 is Rejected),
            None => true,
        },
{
}

} // verus!
