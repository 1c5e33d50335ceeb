//! The odometry: what happens to a reading, and what to an image.
//!
//! The manager keeps the state and its estimates and decides what is done next.
//! Tracking is its caller's, who hands in features and readings; how a pose moves
//! between two readings is handed in as a function.

use vstd::prelude::*;

use crate::algebra::{entries, is, ring, symmetric_part, Ring};
use crate::arith::{apply_length, apply_two, binary, length_of, lengths, of_two};
use crate::double::{Double, MINUS_ONE_BITS};
use crate::matrix::Matrix;
use crate::vio::estimates::{calibration_of, Estimates, InertialValues};
use crate::vio::jacobian::PoseValue;
use crate::vio::kalman::{
    compose, composed, ekf_propagation, gathered_noise, lemma_propagated_same,
    propagated_covariance, Transition,
};
use crate::vio::options::{StateOptions, VioManagerOptions};
use crate::vio::standstill::{angular_velocity, correct, ImuCalibration, ImuReading};
use crate::vio::state::{initial_dim, Run, State, Variable};
use crate::vio::state_helper::{
    all_good, augment_clone, cloned_entry, column, first_bad, in_rows, offset_entry, pose_rate,
    scattered_entries, set_initial_covariance,
};
use crate::vio::updater_zero_velocity::UpdaterZeroVelocity;

verus! {

/// Prior variance of the orientation after a start from a known state: 0.017 squared.
pub const START_ROTATION_VARIANCE: u64 = 0x3F32_F09D_8C6D_612D;

/// Prior variance of the position after a start from a known state: 0.05 squared.
pub const START_POSITION_VARIANCE: u64 = 0x3F64_7AE1_47AE_147C;

/// Prior variance of the velocity after a start from a known state: 0.01 squared.
pub const START_VELOCITY_VARIANCE: u64 = 0x3F1A_36E2_EB1C_432D;

/// The odometry.
#[derive(Debug)]
pub struct VioManager {
    /// The options.
    pub params: VioManagerOptions,
    /// The filter state.
    pub state: State,
    /// The estimates of its variables.
    pub values: Estimates,
    /// The zero-velocity updater, where such updates are tried.
    pub updater_zero_velocity: Option<UpdaterZeroVelocity>,
    /// Whether an image update has happened since a standstill.
    pub has_moved_since_zero_vel: bool,
    /// Whether the filter has been started.
    pub is_initialized_vio: bool,
    /// The time of the start; minus one before.
    pub startup_time: Double,
    /// The time of the last update; minus one before.
    pub timelastupdate: Double,
    /// The time offset at the last propagation.
    pub last_prop_time_offset: Double,
}

/// Whether a time is told apart from minus one: it lies more than the spacing of
/// the numbers above one away.
pub open spec fn differs_from_unset(t: Double) -> bool {
    !t.spec_is_nan() && !(MINUS_ONE_BITS - 2 <= t.bits <= MINUS_ONE_BITS + 1)
}

/// What to do with an image.
#[derive(Clone, Copy, Debug, PartialEq, Eq, Structural)]
pub enum CameraStep {
    /// Try a zero-velocity update.
    TryZeroVelocity,
    /// Try to start the filter.
    Initialize,
    /// Propagate and update with features.
    Update,
}

/// What an update needs first.
#[derive(Clone, Copy, Debug, PartialEq, Eq, Structural)]
pub enum UpdateStart {
    /// The image is older than the state and is dropped.
    OutOfOrder,
    /// The state has to be propagated to the image.
    Propagate,
    /// The state is at the image already.
    Ready,
}

/// What a start of the filter came up with.
#[derive(Debug)]
pub struct InitResult {
    /// The covariance of the listed variables.
    pub covariance: Matrix,
    /// The variables.
    pub order: Vec<(i32, usize)>,
    /// The time of the start.
    pub timestamp: Double,
    /// The inertial state.
    pub inertial: InertialValues,
}

/// Whether an image update goes on to its features.
pub open spec fn goes_on(st: &State, timestamp: Double) -> bool {
    st.clones_imu@.len() >= (if st.options.max_clone_size < 5 {
        st.options.max_clone_size
    } else {
        5
    }) && st.timestamp == timestamp
}

/// Whether a run starts among the first `dim` rows.
pub open spec fn starts_below(run: Run, dim: int) -> bool {
    0 <= run.0 < dim
}

/// The first `n` runs, without those that do not start among the first `dim` rows.
pub open spec fn runs_below(runs: Seq<Run>, dim: int, n: int) -> Seq<Run>
    decreases n,
{
    if n <= 0 {
        seq![]
    } else if starts_below(runs[n - 1], dim) {
        runs_below(runs, dim, n - 1).push(runs[n - 1])
    } else {
        runs_below(runs, dim, n - 1)
    }
}

/// The rows of the inertial state and its calibration.
pub open spec fn inertial_dim(o: StateOptions) -> int {
    15 + o.intrinsic_size()
}

/// The runs that take part in a propagation.
pub open spec fn propagated_runs(st: &State) -> Seq<Run> {
    runs_below(st.runs(), inertial_dim(st.options), st.runs().len() as int)
}

/// Where the first `k` runs start below and the others do not, the first `k` remain.
proof fn lemma_runs_below(runs: Seq<Run>, dim: int, k: int, n: int)
    requires
        0 <= k <= runs.len(),
        0 <= n <= runs.len(),
        forall|i: int| 0 <= i < k ==> starts_below(#[trigger] runs[i], dim),
        forall|i: int| k <= i < runs.len() ==> !starts_below(#[trigger] runs[i], dim),
    ensures
        runs_below(runs, dim, n) == runs.take(
            if n <= k {
                n
            } else {
                k
            },
        ),
    decreases n,
{
    if n > 0 {
        lemma_runs_below(runs, dim, k, n - 1);
        if n <= k {
            assert(runs.take(n - 1).push(runs[n - 1]) =~= runs.take(n));
        }
    } else {
        assert(runs.take(0) =~= Seq::<Run>::empty());
    }
}

/// Selected runs lie where all of them do.
proof fn lemma_runs_below_in_rows(runs: Seq<Run>, dim: int, n: int, rows: int)
    requires
        0 <= n <= runs.len(),
        in_rows(runs, rows),
    ensures
        in_rows(runs_below(runs, dim, n), rows),
    decreases n,
{
    if n > 0 {
        lemma_runs_below_in_rows(runs, dim, n - 1, rows);
    }
}

/// A propagation moves the inertial state and its calibration and nothing else:
/// their runs lie end to end in the first rows.
pub proof fn law_propagation_is_inertial(st: &State)
    requires
        st.wf(),
    ensures
        propagated_runs(st).len() > 0,
        propagated_runs(st)[0].0 == 0,
        column(propagated_runs(st), propagated_runs(st).len() as int) == inertial_dim(st.options),
        forall|i: int|
            0 <= i < st.runs().len() && starts_below(#[trigger] st.runs()[i], inertial_dim(st.options))
                ==> st.runs()[i].0 + st.runs()[i].1 <= inertial_dim(st.options),
{
    let o = st.options;
    let runs = st.runs();
    let dim = inertial_dim(o);
    let k: int = if !o.do_calib_imu_intrinsics {
        1
    } else if o.do_calib_imu_g_sensitivity {
        5
    } else {
        4
    };
    assert(runs[0] == (0i32, 15usize));
    if o.do_calib_imu_intrinsics {
        assert(runs[1] == (15i32, 6usize));
        assert(runs[2] == (21i32, 6usize));
        if o.do_calib_imu_g_sensitivity {
            assert(runs[3] == (27i32, 9usize));
            assert(runs[4] == (36i32, 3usize));
        } else {
            assert(runs[3] == (27i32, 3usize));
        }
    }
    assert forall|i: int| k <= i < runs.len() implies !starts_below(#[trigger] runs[i], dim) by {
        assert(runs[0].0 + runs[0].1 <= runs[i].0);
        if o.do_calib_imu_intrinsics {
            assert(runs[1].0 + runs[1].1 <= runs[i].0);
            assert(runs[2].0 + runs[2].1 <= runs[i].0);
            assert(runs[3].0 + runs[3].1 <= runs[i].0);
            if o.do_calib_imu_g_sensitivity {
                assert(runs[4].0 + runs[4].1 <= runs[i].0);
            }
        }
    }
    lemma_runs_below(runs, dim, k, runs.len() as int);
    let head = runs.take(k);
    assert(propagated_runs(st) == head);
    reveal_with_fuel(column, 6);
}

impl VioManager {
    /// Whether the manager is in order.
    pub open spec fn wf(&self) -> bool {
        self.state.wf() && self.values.fits(&self.state)
    }

    /// A manager that has not seen anything.
    pub fn new(params: VioManagerOptions) -> (m: VioManager)
        requires
            initial_dim(params.state_options) <= i32::MAX,
            initial_dim(params.state_options) * initial_dim(params.state_options) <= usize::MAX,
        ensures
            m.wf(),
            call_ensures(State::new, (params.state_options,), m.state),
            call_ensures(Estimates::new, (&m.state,), m.values),
            m.params == params,
            m.updater_zero_velocity is Some <==> params.zupt_options.try_zupt,
            m.updater_zero_velocity matches Some(u) ==> call_ensures(
                UpdaterZeroVelocity::new,
                (
                    params.msckf_options,
                    params.zupt_options.zupt_max_velocity,
                    params.zupt_options.zupt_noise_multiplier,
                    params.zupt_options.zupt_max_disparity,
                    params.zupt_options.integrated_accel_constraint,
                ),
                u,
            ),
            !m.has_moved_since_zero_vel,
            !m.is_initialized_vio,
            m.startup_time.bits == MINUS_ONE_BITS,
            m.timelastupdate.bits == MINUS_ONE_BITS,
            m.last_prop_time_offset.bits == 0,
    {
        let zupt = params.zupt_options;
        let updater_zero_velocity = if zupt.try_zupt {
            Some(
                UpdaterZeroVelocity::new(
                    params.msckf_options,
                    zupt.zupt_max_velocity,
                    zupt.zupt_noise_multiplier,
                    zupt.zupt_max_disparity,
                    zupt.integrated_accel_constraint,
                ),
            )
        } else {
            None
        };
        let state = State::new(params.state_options);
        let values = Estimates::new(&state);
        VioManager {
            params,
            state,
            values,
            updater_zero_velocity,
            has_moved_since_zero_vel: false,
            is_initialized_vio: false,
            startup_time: Double::minus_one(),
            timelastupdate: Double::minus_one(),
            last_prop_time_offset: Double::zero(),
        }
    }

    /// Whether the filter has been started and has seen an update since.
    pub fn initialized(&self) -> (yes: bool)
        ensures
            yes == (self.is_initialized_vio && differs_from_unset(self.timelastupdate)),
    {
        let bits: u64 = self.timelastupdate.bits;
        self.is_initialized_vio && !self.timelastupdate.is_nan() && !(MINUS_ONE_BITS - 2 <= bits
            && bits <= MINUS_ONE_BITS + 1)
    }

    /// Whether there is anything to propagate for a pose at `timestamp`.
    pub fn propagate_to(&self, timestamp: Double) -> (go: bool)
        ensures
            go == !timestamp.spec_le(self.state.timestamp),
    {
        !timestamp.le(self.state.timestamp)
    }

    /// The time before which readings are no longer needed. `window_start` is
    /// where the readings begin that a start of the filter looks at.
    pub fn feed_measurement_imu(&self, window_start: Double) -> (oldest: Double)
        ensures
            oldest == (if !self.is_initialized_vio {
                window_start
            } else if self.state.clones_imu@.len() == 0 || self.state.timestamp.spec_lt(
                self.state.clones_imu@[0].0,
            ) {
                Double { bits: MINUS_ONE_BITS }
            } else {
                self.state.clones_imu@[0].0
            }),
    {
        if !self.is_initialized_vio {
            return window_start;
        }
        let oldest = self.state.marg_timestep();
        if self.state.timestamp.lt(oldest) {
            Double::minus_one()
        } else {
            oldest
        }
    }

    /// Whether a zero-velocity update is due for an image at `timestamp`.
    pub open spec fn zero_velocity_due(&self, timestamp: Double) -> bool {
        &&& self.is_initialized_vio
        &&& self.updater_zero_velocity is Some
        &&& !self.params.zupt_options.zupt_only_at_beginning || !self.has_moved_since_zero_vel
        &&& self.state.timestamp != timestamp
    }

    /// The first step for an image at `timestamp`.
    pub fn feed_measurement_camera(&self, timestamp: Double) -> (step: CameraStep)
        ensures
            step == (if self.zero_velocity_due(timestamp) {
                CameraStep::TryZeroVelocity
            } else if !self.is_initialized_vio {
                CameraStep::Initialize
            } else {
                CameraStep::Update
            }),
    {
        if self.is_initialized_vio && self.updater_zero_velocity.is_some() && (
        !self.params.zupt_options.zupt_only_at_beginning || !self.has_moved_since_zero_vel)
            && self.state.timestamp != timestamp {
            return CameraStep::TryZeroVelocity;
        }
        if !self.is_initialized_vio {
            return CameraStep::Initialize;
        }
        CameraStep::Update
    }

    /// Takes what a start of the filter came to: covariance, time, the inertial state
    /// with its first estimate, and whether the platform is moving.
    pub fn try_to_initialize<
        L: Fn([Double; 3]) -> Double,
        P: Fn(Double, Double) -> Double,
        T: Fn(Double, Double) -> Double,
    >(
        &mut self,
        result: Option<InitResult>,
        length: &L,
        plus: &P,
        times: &T,
    ) -> (started: bool)
        requires
            old(self).wf(),
            lengths(*length),
            binary(*plus),
            binary(*times),
            result matches Some(r) ==> in_rows(r.order@, old(self).state.dim()) && r.covariance.wf()
                && column(r.order@, r.order@.len() as int) <= r.covariance.height() && column(
                r.order@,
                r.order@.len() as int,
            ) <= r.covariance.width(),
        ensures
            final(self).wf(),
            started == result is Some,
            result is None ==> *final(self) == *old(self),
            result matches Some(r) ==> {
                &&& *final(self) == (VioManager {
                    state: final(self).state,
                    values: Estimates {
                        inertial: r.inertial,
                        inertial_first: r.inertial,
                        ..old(self).values
                    },
                    has_moved_since_zero_vel: old(self).has_moved_since_zero_vel
                        || old(self).params.zupt_options.zupt_max_velocity.spec_lt(
                        length_of(*length, r.inertial.vel@),
                    ),
                    is_initialized_vio: true,
                    startup_time: r.timestamp,
                    ..*old(self)
                })
                &&& final(self).state == (State {
                    timestamp: r.timestamp,
                    cov: final(self).state.cov,
                    ..old(self).state
                })
                &&& is(
                    &final(self).state.cov,
                    old(self).state.dim(),
                    old(self).state.dim(),
                    symmetric_part(
                        scattered_entries(&old(self).state.cov, &r.covariance, r.order@),
                        ring(*plus, *times),
                    ),
                )
            },
    {
        match result {
            None => false,
            Some(r) => {
                set_initial_covariance(&mut self.state, &r.covariance, &r.order, plus, times);
                self.state.timestamp = r.timestamp;
                self.startup_time = r.timestamp;
                self.values.start_at(r.inertial);
                let speed = apply_length(length, r.inertial.vel);
                if self.params.zupt_options.zupt_max_velocity.lt(speed) {
                    self.has_moved_since_zero_vel = true;
                }
                self.is_initialized_vio = true;
                assert(self.state.runs() == old(self).state.runs());
                true
            },
        }
    }

    /// How many features each camera tracks once the filter has been started.
    pub fn features_per_camera(&self, max_features: usize) -> (n: usize)
        ensures
            n == max_features / (if self.params.state_options.num_cameras == 0 {
                1
            } else {
                self.params.state_options.num_cameras
            }),
    {
        let cameras: usize = self.params.state_options.num_cameras;
        max_features / (if cameras == 0 {
            1
        } else {
            cameras
        })
    }

    /// Starts the filter from a known inertial state at `timestamp`, which is the first
    /// estimate as well. The inertial block of the covariance becomes diagonal.
    pub fn initialize_with_gt<T: Fn(Double, Double) -> Double>(
        &mut self,
        timestamp: Double,
        given: InertialValues,
        times: &T,
    )
        requires
            old(self).wf(),
            binary(*times),
        ensures
            final(self).wf(),
            *final(self) == (VioManager {
                state: final(self).state,
                values: Estimates { inertial: given, inertial_first: given, ..old(self).values },
                is_initialized_vio: true,
                startup_time: timestamp,
                ..*old(self)
            }),
            final(self).state == (State {
                timestamp,
                cov: final(self).state.cov,
                ..old(self).state
            }),
            forall|i: int, j: int|
                old(self).state.cov.has(i, j) ==> #[trigger] final(self).state.cov.at(i, j) == (if i
                    >= 15 || j >= 15 {
                    old(self).state.cov.at(i, j)
                } else if i == j {
                    start_variance(
                        i,
                        of_two(
                            *times,
                            old(self).params.init_bias_sigma,
                            old(self).params.init_bias_sigma,
                        ),
                    )
                } else {
                    Double { bits: 0 }
                }),
    {
        let sigma = self.params.init_bias_sigma;
        let bias_variance = apply_two(times, sigma, sigma);
        self.values.start_at(given);
        self.state.timestamp = timestamp;
        self.startup_time = timestamp;
        let mut block = Matrix::filled(15, 15, Double::zero());
        let mut k: usize = 0;
        while k < 15
            invariant
                k <= 15,
                block.shaped(15, 15),
                forall|i: int, j: int|
                    block.has(i, j) ==> #[trigger] block.at(i, j) == (if i == j && i < k {
                        start_variance(i, bias_variance)
                    } else {
                        Double { bits: 0 }
                    }),
            decreases 15 - k,
        {
            let v = if k < 3 {
                Double { bits: START_ROTATION_VARIANCE }
            } else if k < 6 {
                Double { bits: START_POSITION_VARIANCE }
            } else if k < 9 {
                Double { bits: START_VELOCITY_VARIANCE }
            } else {
                bias_variance
            };
            block.set(k, k, v);
            k += 1;
        }
        let id: usize = self.state.imu.id as usize;
        proof {
            assert(self.state.runs() == old(self).state.runs());
            assert(self.state.runs()[0] == (0i32, 15usize));
        }
        self.state.cov.set_block(id, id, &block);
        self.is_initialized_vio = true;
        proof {
            assert(self.state.runs() == old(self).state.runs());
            assert forall|i: int, j: int| old(self).state.cov.has(i, j) implies #[trigger] self.state.cov.at(
                i,
                j,
            ) == (if i >= 15 || j >= 15 {
                old(self).state.cov.at(i, j)
            } else if i == j {
                start_variance(i, bias_variance)
            } else {
                Double { bits: 0 }
            }) by {
                assert(block.has(i, j) <==> i < 15 && j < 15);
            }
        }
    }

    /// What an update for an image at `timestamp` needs first.
    pub fn begin_update(&self, timestamp: Double) -> (start: UpdateStart)
        ensures
            start == (if timestamp.spec_lt(self.state.timestamp) {
                UpdateStart::OutOfOrder
            } else if self.state.timestamp != timestamp {
                UpdateStart::Propagate
            } else {
                UpdateStart::Ready
            }),
    {
        if timestamp.lt(self.state.timestamp) {
            UpdateStart::OutOfOrder
        } else if self.state.timestamp != timestamp {
            UpdateStart::Propagate
        } else {
            UpdateStart::Ready
        }
    }

    /// The variables that take part in a propagation.
    pub fn propagation_order(&self) -> (order: Vec<(i32, usize)>)
        requires
            self.wf(),
        ensures
            order@ == propagated_runs(&self.state),
    {
        let dim: usize = 15 + self.state.options.imu_intrinsic_size();
        let all = self.state.variable_order();
        let mut order: Vec<(i32, usize)> = Vec::new();
        let mut i: usize = 0;
        while i < all.len()
            invariant
                i <= all@.len(),
                dim == inertial_dim(self.state.options),
                all@ == self.state.runs(),
                order@ == runs_below(all@, dim as int, i as int),
            decreases all@.len() - i,
        {
            let run = all[i];
            if run.0 >= 0 && (run.0 as usize) < dim {
                order.push(run);
            }
            i += 1;
        }
        order
    }

    /// The times between which readings are needed for a propagation to `timestamp`:
    /// those of the sensor, by the time offset then and now.
    pub fn reading_span<P: Fn(Double, Double) -> Double>(&self, timestamp: Double, plus: &P) -> (span: (
        Double,
        Double,
    ))
        requires
            binary(*plus),
        ensures
            span.0 == of_two(*plus, self.state.timestamp, self.last_prop_time_offset),
            span.1 == of_two(*plus, timestamp, self.state.spec_time_offset(&self.values)),
    {
        let offset = self.state.time_offset(&self.values);
        (
            apply_two(plus, self.state.timestamp, self.last_prop_time_offset),
            apply_two(plus, timestamp, offset),
        )
    }

    /// Moves the inertial state over readings, from each to the next; what it is first
    /// estimated as follows. The steps of the covariance.
    fn move_over<
        F: Fn(
            ImuCalibration,
            ImuReading,
            ImuReading,
            InertialValues,
            InertialValues,
        ) -> Prediction,
    >(&mut self, c: &ImuCalibration, readings: &Vec<ImuReading>, predict: &F) -> (steps: (
        Vec<Transition>,
        Ghost<Seq<Prediction>>,
    ))
        requires
            old(self).wf(),
            1 <= readings@.len(),
            predicts(*predict, inertial_dim(old(self).state.options)),
        ensures
            *final(self) == (VioManager {
                values: predicted(&old(self).values, steps.1@),
                ..*old(self)
            }),
            steps.0@ == steps_of(steps.1@),
            predicted_by(
                *predict,
                &old(self).values,
                old(self).state.options.do_fej,
                *c,
                readings@,
                steps.1@,
            ),
            forall|i: int|
                0 <= i < steps.0@.len() ==> (#[trigger] steps.0@[i]).f.shaped(
                    inertial_dim(old(self).state.options),
                    inertial_dim(old(self).state.options),
                ) && steps.0@[i].qd.shaped(
                    inertial_dim(old(self).state.options),
                    inertial_dim(old(self).state.options),
                ),
    {
        let ghost before = *self;
        let ghost mut run: Seq<Prediction> = seq![];
        let mut steps: Vec<Transition> = Vec::new();
        assert(self.values == predicted(&before.values, run));
        assert(steps@ =~= steps_of(run));
        let mut i: usize = 0;
        while i < readings.len() - 1
            invariant
                i + 1 <= readings@.len(),
                run.len() == i,
                predicts(*predict, inertial_dim(before.state.options)),
                *self == (VioManager { values: predicted(&before.values, run), ..before }),
                steps@ == steps_of(run),
                forall|k: int|
                    0 <= k < i ==> #[trigger] predicted_at(
                        *predict,
                        &before.values,
                        before.state.options.do_fej,
                        *c,
                        readings@,
                        run,
                        k,
                    ),
                forall|k: int|
                    0 <= k < steps@.len() ==> (#[trigger] steps@[k]).f.shaped(
                        inertial_dim(before.state.options),
                        inertial_dim(before.state.options),
                    ) && steps@[k].qd.shaped(
                        inertial_dim(before.state.options),
                        inertial_dim(before.state.options),
                    ),
            decreases readings@.len() - i,
        {
            let now = self.values.inertial;
            let lin = if self.state.options.do_fej {
                self.values.inertial_first
            } else {
                now
            };
            let p = predict(*c, readings[i], readings[i + 1], now, lin);
            let ghost longer = run.push(p);
            proof {
                assert forall|k: int| 0 <= k < i + 1 implies #[trigger] predicted_at(
                    *predict,
                    &before.values,
                    before.state.options.do_fej,
                    *c,
                    readings@,
                    longer,
                    k,
                ) by {
                    assert(longer.take(k) =~= run.take(k));
                    if k < i {
                        assert(predicted_at(
                            *predict,
                            &before.values,
                            before.state.options.do_fej,
                            *c,
                            readings@,
                            run,
                            k,
                        ));
                        assert(longer[k] == run[k]);
                    } else {
                        assert(run.take(k) =~= run);
                    }
                }
                assert(steps_of(longer) =~= steps_of(run).push(p.step));
                run = longer;
            }
            let Prediction { pose, vel, step } = p;
            let moved = InertialValues { pose, vel, ..now };
            self.values.start_at(moved);
            steps.push(step);
            i += 1;
        }
        (steps, Ghost(run))
    }

    /// Propagates to `timestamp`: nothing where too few readings were there, else the
    /// inertial state from reading to reading and the covariance over all the steps
    /// together. The state moves to `timestamp`, and a clone of the pose joins the
    /// window if `augment`. Fails with the first diagonal entry of the covariance that
    /// is not at least zero.
    pub fn propagate_impl<
        F: Fn(
            ImuCalibration,
            ImuReading,
            ImuReading,
            InertialValues,
            InertialValues,
        ) -> Prediction,
        P: Fn(Double, Double) -> Double,
        T: Fn(Double, Double) -> Double,
    >(
        &mut self,
        timestamp: Double,
        readings: Option<Vec<ImuReading>>,
        augment: bool,
        predict: &F,
        plus: &P,
        times: &T,
    ) -> (res: Result<bool, usize>)
        requires
            old(self).wf(),
            predicts(*predict, inertial_dim(old(self).state.options)),
            binary(*plus),
            binary(*times),
            readings matches Some(r) ==> 1 <= r@.len(),
            augment ==> old(self).state.dim() + 6 <= i32::MAX && (old(self).state.dim() + 6) * (old(
                self,
            ).state.dim() + 6) <= usize::MAX && forall|i: int|
                0 <= i < old(self).state.clones_imu@.len() ==> (#[trigger] old(
                    self,
                ).state.clones_imu@[i]).0 != timestamp,
        ensures
            final(self).wf(),
            readings is None ==> res == Ok::<bool, usize>(false) && *final(self) == *old(self),
            readings matches Some(r) ==> match res {
                Ok(moved) => moved && exists|cov: Matrix, c: ImuCalibration, run: Seq<Prediction>|
                    #[trigger]
                    propagated(
                        old(self),
                        final(self),
                        &cov,
                        c,
                        run,
                        r@,
                        timestamp,
                        augment,
                        *predict,
                        *plus,
                        *times,
                    ),
                Err(_) => exists|c: ImuCalibration, run: Seq<Prediction>|
                    #[trigger]
                    stopped(
                        old(self),
                        final(self),
                        c,
                        run,
                        r@,
                        *predict,
                        ring(*plus, *times),
                        res,
                    ),
            },
    {
        let list = match readings {
            None => {
                return Ok(false);
            },
            Some(r) => r,
        };
        let ghost start = *self;
        let t_off = self.state.time_offset(&self.values);
        let c = self.state.imu_calibration(&self.values);
        let (s, Ghost(run)) = self.move_over(&c, &list, predict);
        let (last_w, _) = correct(&c, &list[list.len() - 1], plus, times);
        let order = self.propagation_order();
        let ghost before = *self;
        proof {
            law_propagation_is_inertial(&self.state);
            assert(self.state.runs()[0] == (0i32, 15usize));
            assert(initial_dim(self.state.options) >= inertial_dim(self.state.options)) by {
                let o = self.state.options;
                assert(o.num_cameras * crate::vio::state::camera_stride(o) >= 0) by (nonlinear_arith)
                    requires
                        crate::vio::state::camera_stride(o) >= 0,
                        o.num_cameras >= 0,
                ;
            }
        }
        let ghost op = ring(*plus, *times);
        let dim: usize = 15 + self.state.options.imu_intrinsic_size();
        proof {
            let d = dim as int;
            assert(d <= 39);
            assert(d * d <= 39 * 39) by (nonlinear_arith)
                requires
                    0 <= d <= 39,
            ;
            let runs = self.state.runs();
            lemma_runs_below_in_rows(
                runs,
                inertial_dim(self.state.options),
                runs.len() as int,
                self.state.dim(),
            );
        }
        let (phi, q) = compose(&s, dim, plus, times);
        let done = ekf_propagation(&mut self.state, &order, &order, &phi, &q, plus, times);
        let ghost cov = self.state.cov;
        proof {
            assert(self.state.runs() == before.state.runs());
            let d = dim as int;
            let n = before.state.dim();
            let c = entries(&before.state.cov);
            let f = composed(s@, op, d, s@.len() as int);
            let g = gathered_noise(s@, op, d, s@.len() as int);
            assert forall|x: int, y: int| 0 <= x < d && 0 <= y < d implies #[trigger] entries(&phi)(
                x,
                y,
            ) == f(x, y) by {
                assert(phi.has(x, y));
                assert(phi.at(x, y) == f(x, y));
            }
            assert forall|x: int, y: int| 0 <= x < d && 0 <= y < d implies #[trigger] entries(&q)(
                x,
                y,
            ) == g(x, y) by {
                assert(q.has(x, y));
                assert(q.at(x, y) == g(x, y));
            }
            assert forall|i: int, j: int| cov.has(i, j) implies #[trigger] cov.at(i, j)
                == propagated_covariance(c, f, g, order@, order@, op)(i, j) by {
                lemma_propagated_same(c, entries(&phi), f, entries(&q), g, order@, order@, op, n, i, j);
            }
            assert(moved_over(&before.state, s@, op, &cov));
        }
        match done {
            Err(k) => {
                let res = Err(k);
                assert(stopped(&start, self, c, run, list@, *predict, op, res));
                return res;
            },
            Ok(_) => {},
        }
        assert(all_good(&cov));
        self.state.timestamp = timestamp;
        assert(self.state.runs() == before.state.runs());
        if augment {
            augment_clone(&mut self.state, &mut self.values, &last_w, plus, times);
        }
        self.last_prop_time_offset = t_off;
        assert(propagated(
            &start,
            self,
            &cov,
            c,
            run,
            list@,
            timestamp,
            augment,
            *predict,
            *plus,
            *times,
        ));
        Ok(true)
    }

    /// Whether the features of an image at `timestamp` are used: the state must
    /// be there, with five clones, or as many as the window keeps. If so the
    /// update is recorded.
    pub fn confirm_update(&mut self, timestamp: Double) -> (go: bool)
        ensures
            go == goes_on(&old(self).state, timestamp),
            *final(self) == (if go {
                VioManager { timelastupdate: timestamp, has_moved_since_zero_vel: true, ..*old(self) }
            } else {
                *old(self)
            }),
    {
        let most: usize = self.state.options.max_clone_size;
        let least: usize = if most < 5 {
            most
        } else {
            5
        };
        if self.state.clones_imu.len() < least {
            return false;
        }
        if self.state.timestamp != timestamp {
            return false;
        }
        self.timelastupdate = timestamp;
        self.has_moved_since_zero_vel = true;
        true
    }

    /// The time whose features are used before their clone leaves: that of the
    /// oldest clone, once there are more than five or more than the window keeps.
    pub fn marginal_time(&self) -> (t: Option<Double>)
        ensures
            t is Some <==> self.state.clones_imu@.len() > self.state.options.max_clone_size
                || self.state.clones_imu@.len() > 5,
            t matches Some(time) ==> time == self.state.clones_imu@[0].0,
    {
        let n: usize = self.state.clones_imu.len();
        if n > self.state.options.max_clone_size || n > 5 {
            Some(self.state.marg_timestep())
        } else {
            None
        }
    }

    /// The time up to which measurements are dropped after an update: that of
    /// the clone that is about to leave, if one is.
    pub fn cleanup_time(&self) -> (t: Option<Double>)
        ensures
            t == (if self.state.clones_imu@.len() > self.state.options.max_clone_size {
                Some(self.state.clones_imu@[0].0)
            } else {
                None
            }),
    {
        if self.state.clones_imu.len() > self.state.options.max_clone_size {
            Some(self.state.marg_timestep())
        } else {
            None
        }
    }
}

/// The next step for an image, once a step has succeeded or not; none if the
/// image is done with.
pub fn next_step(step: CameraStep, succeeded: bool) -> (next: Option<CameraStep>)
    ensures
        next == (match step {
            CameraStep::TryZeroVelocity => if succeeded {
                None
            } else {
                Some(CameraStep::Update)
            },
            CameraStep::Initialize => if succeeded {
                Some(CameraStep::Update)
            } else {
                None
            },
            CameraStep::Update => None,
        }),
{
    match step {
        CameraStep::TryZeroVelocity => if succeeded {
            None
        } else {
            Some(CameraStep::Update)
        },
        CameraStep::Initialize => if succeeded {
            Some(CameraStep::Update)
        } else {
            None
        },
        CameraStep::Update => None,
    }
}

/// The prior variance of inertial row `i` after a start from a known state.
pub open spec fn start_variance(i: int, bias_variance: Double) -> Double {
    if i < 3 {
        Double { bits: START_ROTATION_VARIANCE }
    } else if i < 6 {
        Double { bits: START_POSITION_VARIANCE }
    } else if i < 9 {
        Double { bits: START_VELOCITY_VARIANCE }
    } else {
        bias_variance
    }
}

/// Whether `cov` is the covariance of `st` after the steps of a propagation.
pub open spec fn moved_over(st: &State, steps: Seq<Transition>, op: Ring, cov: &Matrix) -> bool {
    let n = steps.len() as int;
    let d = inertial_dim(st.options);
    let order = propagated_runs(st);
    is(
        cov,
        st.dim(),
        st.dim(),
        propagated_covariance(
            entries(&st.cov),
            composed(steps, op, d, n),
            gathered_noise(steps, op, d, n),
            order,
            order,
            op,
        ),
    )
}

/// Where the inertial state is after a reading, and the step of the covariance.
pub struct Prediction {
    /// The pose.
    pub pose: PoseValue,
    /// The velocity.
    pub vel: [Double; 3],
    /// The transition and the noise.
    pub step: Transition,
}

/// Whether the inertial state can be moved from one reading to the next: the
/// calibration, the two readings, the state, and where derivatives are taken.
pub open spec fn predicts<
    F: Fn(ImuCalibration, ImuReading, ImuReading, InertialValues, InertialValues) -> Prediction,
>(predict: F, dim: int) -> bool {
    &&& forall|c: ImuCalibration, a: ImuReading, b: ImuReading, v: InertialValues, at: InertialValues| #[trigger]
        call_requires(predict, (c, a, b, v, at))
    &&& forall|
        c: ImuCalibration,
        a: ImuReading,
        b: ImuReading,
        v: InertialValues,
        at: InertialValues,
        p: Prediction,
    | #[trigger]
        call_ensures(predict, (c, a, b, v, at), p) ==> p.step.f.shaped(dim, dim) && p.step.qd.shaped(
            dim,
            dim,
        )
}

/// The steps of predictions.
pub open spec fn steps_of(run: Seq<Prediction>) -> Seq<Transition> {
    Seq::new(run.len(), |i: int| run[i].step)
}

/// The estimates after predictions: the inertial state is the last one predicted, which
/// is its first estimate too; the biases stay.
pub open spec fn predicted(values: &Estimates, run: Seq<Prediction>) -> Estimates {
    if run.len() == 0 {
        *values
    } else {
        let v = InertialValues { pose: run.last().pose, vel: run.last().vel, ..values.inertial };
        Estimates { inertial: v, inertial_first: v, ..*values }
    }
}

/// Whether prediction `i` is made from reading `i` to the next, of what those before
/// it came to.
pub open spec fn predicted_at<
    F: Fn(ImuCalibration, ImuReading, ImuReading, InertialValues, InertialValues) -> Prediction,
>(
    predict: F,
    values: &Estimates,
    fej: bool,
    c: ImuCalibration,
    readings: Seq<ImuReading>,
    run: Seq<Prediction>,
    i: int,
) -> bool {
    let at = predicted(values, run.take(i));
    call_ensures(
        predict,
        (
            c,
            readings[i],
            readings[i + 1],
            at.inertial,
            if fej {
                at.inertial_first
            } else {
                at.inertial
            },
        ),
        run[i],
    )
}

/// Whether predictions are made from each reading to the next.
pub open spec fn predicted_by<
    F: Fn(ImuCalibration, ImuReading, ImuReading, InertialValues, InertialValues) -> Prediction,
>(
    predict: F,
    values: &Estimates,
    fej: bool,
    c: ImuCalibration,
    readings: Seq<ImuReading>,
    run: Seq<Prediction>,
) -> bool {
    &&& run.len() + 1 == readings.len()
    &&& forall|i: int|
        0 <= i < run.len() ==> #[trigger] predicted_at(predict, values, fej, c, readings, run, i)
}

/// Whether a propagation stopped at a covariance with a diagonal entry that is not at
/// least zero.
pub open spec fn stopped<
    F: Fn(ImuCalibration, ImuReading, ImuReading, InertialValues, InertialValues) -> Prediction,
>(
    before: &VioManager,
    after: &VioManager,
    c: ImuCalibration,
    run: Seq<Prediction>,
    readings: Seq<ImuReading>,
    predict: F,
    op: Ring,
    res: Result<bool, usize>,
) -> bool {
    &&& calibration_of(c, before.state.options.imu_model, &before.values)
    &&& predicted_by(predict, &before.values, before.state.options.do_fej, c, readings, run)
    &&& *after == (VioManager {
        state: State { cov: after.state.cov, ..before.state },
        values: predicted(&before.values, run),
        ..*before
    })
    &&& moved_over(&before.state, steps_of(run), op, &after.state.cov)
    &&& res is Err && first_bad(&after.state.cov, res->Err_0 as int)
}

/// Whether `after` is `before` moved to `timestamp` over readings, with covariance `cov`
/// before a clone of the pose joins if `augment`.
pub open spec fn propagated<
    F: Fn(ImuCalibration, ImuReading, ImuReading, InertialValues, InertialValues) -> Prediction,
    P: Fn(Double, Double) -> Double,
    T: Fn(Double, Double) -> Double,
>(
    before: &VioManager,
    after: &VioManager,
    cov: &Matrix,
    c: ImuCalibration,
    run: Seq<Prediction>,
    readings: Seq<ImuReading>,
    timestamp: Double,
    augment: bool,
    predict: F,
    plus: P,
    times: T,
) -> bool {
    let n = before.state.dim();
    let op = ring(plus, times);
    let values = predicted(&before.values, run);
    &&& calibration_of(c, before.state.options.imu_model, &before.values)
    &&& predicted_by(predict, &before.values, before.state.options.do_fej, c, readings, run)
    &&& moved_over(&before.state, steps_of(run), op, cov)
    &&& all_good(cov)
    &&& *after == (VioManager {
        state: after.state,
        values: Estimates { clones: after.values.clones, ..values },
        last_prop_time_offset: before.state.spec_time_offset(&before.values),
        ..*before
    })
    &&& after.state == (State {
        timestamp,
        cov: after.state.cov,
        clones_imu: after.state.clones_imu,
        ..before.state
    })
    &&& !augment ==> {
        &&& after.state.cov == *cov
        &&& after.state.clones_imu == before.state.clones_imu
        &&& after.values.clones == before.values.clones
    }
    &&& augment ==> {
        &&& after.values.clones@ == before.values.clones@.push(
            (values.inertial.pose, values.inertial_first.pose),
        )
        &&& after.state.clones_imu@ == before.state.clones_imu@.push(
            (timestamp, Variable { id: n as i32, size: 6 }),
        )
        &&& after.state.cov.shaped(n + 6, n + 6)
        &&& !before.state.options.do_calib_camera_timeoffset ==> forall|i: int, j: int|
            after.state.cov.has(i, j) ==> #[trigger] after.state.cov.at(i, j) == cloned_entry(
                cov,
                n,
                i,
                j,
            )
        &&& before.state.options.do_calib_camera_timeoffset ==> forall|i: int, j: int|
            after.state.cov.has(i, j) ==> #[trigger] after.state.cov.at(i, j) == offset_entry(
                cov,
                n,
                before.state.calib_dt_cam_to_imu->0.id as int,
                pose_rate(angular_velocity(c, readings.last(), op), values.inertial),
                plus,
                times,
                i,
                j,
            )
    }
}

} // verus!
