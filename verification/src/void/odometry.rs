//! The stages of a frame.
//!
//! A frame is taken through propagation, depth update, visual update and mapping.
//! Which measurements a frame consumes, how the state moves over them, which stages
//! run, which updates are accepted and what is reported is decided here; the caller
//! runs the updates.

use vstd::prelude::*;

use crate::algebra::{ring, Ring, HALF_BITS};
use crate::arith::{apply_two, binary, of_two};
use crate::double::{Double, ONE_BITS};
use crate::void::options::{UpdateGateConfig, VoidOptions};
use crate::void_esikf::propagator::{
    linearizes, spins, NoiseBlocks, Propagator, TransitionBlocks,
};
use crate::void_map::voxel::VoxelMap;
use crate::void_types::motion::{plus3, scaled3, sum3, times3};
use crate::void_types::sensor::ImuSample;
use crate::void_types::state::{zeros, State, DIM_STATE};

verus! {

/// How much later than a frame (s) a measurement still belongs to it: 1e-9.
pub const TIME_SLACK: u64 = 0x3E11_2E0B_E826_D695;

/// The shortest time step (s): 1e-4.
pub const LEAST_STEP: u64 = 0x3F1A_36E2_EB1C_432D;

/// The time (s) after the last measurement beyond which the state is carried on: 1e-3.
pub const TAIL_LIMIT: u64 = 0x3F50_624D_D2F1_A9FC;

/// Gravity along the third axis (m/s^2): -9.81.
pub const GRAVITY_Z: u64 = 0xC023_9EB8_51EB_851F;

/// The most iterations of a depth update.
pub const DEPTH_ITERATIONS: usize = 5;

/// With fewer visible points than this, rays are cast.
pub const RAYCAST_BELOW: usize = 60;

/// Edge length of a cell (pixels) of the grid of visible points.
pub const OCCUPANCY_CELL: usize = 30;

/// Seconds spent in the stages of a frame.
#[derive(Clone, Copy, Debug, PartialEq, Eq, Structural)]
pub struct FrameTimings {
    /// Propagation.
    pub propagate: Double,
    /// Making the cloud.
    pub depth_preprocess: Double,
    /// The depth update.
    pub depth_update: Double,
    /// The visual update.
    pub visual_update: Double,
    /// Mapping.
    pub map_update: Double,
}

impl Default for FrameTimings {
    fn default() -> (t: Self)
        ensures
            t == (FrameTimings {
                propagate: Double { bits: 0 },
                depth_preprocess: Double { bits: 0 },
                depth_update: Double { bits: 0 },
                visual_update: Double { bits: 0 },
                map_update: Double { bits: 0 },
            }),
    {
        let o = Double::zero();
        FrameTimings {
            propagate: o,
            depth_preprocess: o,
            depth_update: o,
            visual_update: o,
            map_update: o,
        }
    }
}

/// What is reported of a frame.
#[derive(Debug)]
pub struct OdometryOutput {
    /// The time of the frame (s).
    pub t: Double,
    /// The orientation, row by row.
    pub rotation: [Double; 9],
    /// The position (m).
    pub position: [Double; 3],
    /// The velocity (m/s).
    pub velocity: [Double; 3],
    /// The variances of the error.
    pub covariance_diag: Vec<Double>,
    /// Points that counted in the depth update.
    pub depth_inliers: usize,
    /// Iterations of the depth update.
    pub depth_iterations: usize,
    /// Iterations of the visual update.
    pub visual_iterations: usize,
    /// Whether the visual update was made and accepted.
    pub visual_healthy: bool,
    /// Whether the depth update stopped early, on points that counted.
    pub depth_converged: bool,
    /// Visual points of the map.
    pub map_visual_points: usize,
    /// Updates of this frame that were not accepted.
    pub rejected_updates: usize,
    /// Updates that were not accepted, so far.
    pub rejected_total: usize,
    /// Seconds spent in the stages.
    pub timings: FrameTimings,
}

/// The measurements that a frame consumes, and the time from which the state is
/// carried on to the frame.
#[derive(Debug)]
pub struct ImuPlan {
    /// The time of the frame (s).
    pub frame_t: Double,
    /// The measurements, in the order in which they came.
    pub samples: Vec<ImuSample>,
    /// The time that the measurements lead to (s).
    pub reached: Double,
}

/// A stage of a frame.
#[derive(Clone, Copy, Debug, PartialEq, Eq, Structural)]
pub enum FrameStage {
    /// The state is moved over the measurements.
    Propagate,
    /// The state is updated with the depth points.
    Depth,
    /// The state is updated with the image.
    Visual,
    /// The map takes the points.
    Mapping,
}

/// What came of the updates of a frame so far.
#[derive(Clone, Copy, Debug, PartialEq, Eq, Structural)]
pub struct FrameReport {
    /// Points that counted in the depth update.
    pub depth_inliers: usize,
    /// Iterations of the depth update.
    pub depth_iterations: usize,
    /// Whether the depth update stopped early, on points that counted.
    pub depth_converged: bool,
    /// Iterations of the visual update.
    pub visual_iterations: usize,
    /// Whether the visual update was made and accepted.
    pub visual_healthy: bool,
    /// Updates that were not accepted.
    pub rejected: usize,
}

impl FrameReport {
    /// Nothing yet.
    pub fn new() -> (r: FrameReport)
        ensures
            r == blank_report(),
    {
        FrameReport {
            depth_inliers: 0,
            depth_iterations: 0,
            depth_converged: false,
            visual_iterations: 0,
            visual_healthy: false,
            rejected: 0,
        }
    }
}

/// The report before the first update.
pub open spec fn blank_report() -> FrameReport {
    FrameReport {
        depth_inliers: 0,
        depth_iterations: 0,
        depth_converged: false,
        visual_iterations: 0,
        visual_healthy: false,
        rejected: 0,
    }
}

/// How far an update moved the state.
#[derive(Clone, Copy, Debug, PartialEq, Eq, Structural)]
pub struct Jump {
    /// The move (m).
    pub dp: Double,
    /// The change of velocity (m/s).
    pub dvel: Double,
    /// The turn (rad).
    pub drot: Double,
}

/// What a frame does to the map.
#[derive(Clone, Copy, Debug, PartialEq, Eq, Structural)]
pub enum MapStep {
    /// Nothing.
    Skip,
    /// The points of the cloud are registered.
    Register,
    /// The points are registered, and the visual points updated.
    RegisterAndUpdateVisual,
}

/// The pipeline.
#[derive(Debug)]
pub struct VoidOdometry {
    /// What is propagated.
    pub esikf: Propagator,
    /// The map.
    pub map: VoxelMap,
    /// The options.
    pub options: VoidOptions,
    /// How far an update may move the state.
    pub gate: UpdateGateConfig,
    /// The frames without visual updates.
    pub visual_warmup_frames: u32,
    /// The frames without mapping.
    pub map_warmup_frames: u32,
    /// The state.
    pub state: State,
    /// Measurements that no frame has consumed.
    pub imu_queue: Vec<ImuSample>,
    /// The time of the last frame (s).
    pub last_frame_t: Option<Double>,
    /// The number of the last frame.
    pub frame_id: u32,
    /// Updates that were not accepted.
    pub rejected_updates: usize,
}

/// Whether a vector can always be turned, always with the same result.
pub open spec fn rotates<R: Fn([Double; 9], [Double; 3]) -> [Double; 3]>(rotate: R) -> bool {
    &&& forall|m: [Double; 9], v: [Double; 3]| #[trigger] call_requires(rotate, (m, v))
    &&& forall|m: [Double; 9], v: [Double; 3], a: [Double; 3], b: [Double; 3]| #[trigger]
        call_ensures(rotate, (m, v), a) && #[trigger] call_ensures(rotate, (m, v), b) ==> a == b
}

/// A vector, turned.
pub open spec fn rotated<R: Fn([Double; 9], [Double; 3]) -> [Double; 3]>(
    rotate: R,
    m: [Double; 9],
    v: [Double; 3],
) -> [Double; 3] {
    choose|r: [Double; 3]| call_ensures(rotate, (m, v), r)
}

/// How many measurements, from place `i` on, are not later than the limit.
pub open spec fn due(queue: Seq<ImuSample>, limit: Double, i: int) -> int
    decreases queue.len() - i,
{
    if i >= queue.len() || limit.spec_lt(queue[i].t) {
        i
    } else {
        due(queue, limit, i + 1)
    }
}

/// Whether a depth update is accepted.
pub open spec fn depth_accepted(gate: UpdateGateConfig, j: Jump) -> bool {
    j.dp.spec_lt(gate.max_pos_delta) && j.drot.spec_lt(gate.max_rot_delta)
}

/// Whether a visual update is accepted.
pub open spec fn visual_accepted(gate: UpdateGateConfig, j: Jump) -> bool {
    j.dp.spec_lt(gate.max_pos_delta) && j.dvel.spec_lt(gate.max_vel_delta) && j.drot.spec_lt(
        gate.max_rot_delta,
    )
}

/// The time from one moment to a later one, as a step: not less than the shortest.
pub open spec fn step_between(from: Double, to: Double, op: Ring) -> Double {
    (op.plus)(to, from.spec_neg()).greater(Double { bits: LEAST_STEP })
}

/// The mean of two vectors.
pub open spec fn mean3(a: Seq<Double>, b: Seq<Double>, op: Ring) -> Seq<Double> {
    scaled3(sum3(a, b, op), Double { bits: HALF_BITS }, op)
}

/// Whether the state after measurement `k` leads to the one after the next.
pub open spec fn stepped_at<
    L: Fn([Double; 9], [Double; 3], [Double; 3], Double) -> (TransitionBlocks, NoiseBlocks),
    S: Fn([Double; 9], [Double; 3], Double) -> [Double; 9],
>(
    esikf: &Propagator,
    states: Seq<State>,
    samples: Seq<ImuSample>,
    k: int,
    linearize: L,
    spin: S,
    op: Ring,
) -> bool {
    let (a, b) = (samples[k], samples[k + 1]);
    esikf.moved_on(
        &states[k],
        &states[k + 1],
        mean3(a.omega@, b.omega@, op),
        mean3(a.acc@, b.acc@, op),
        step_between(a.t, b.t, op),
        linearize,
        spin,
        op,
    )
}

/// Whether a state is another moved over the measurements of a frame: from each to the
/// next, and on to the frame if enough time is left.
pub open spec fn moved_over<
    L: Fn([Double; 9], [Double; 3], [Double; 3], Double) -> (TransitionBlocks, NoiseBlocks),
    S: Fn([Double; 9], [Double; 3], Double) -> [Double; 9],
>(
    esikf: &Propagator,
    before: &State,
    after: &State,
    states: Seq<State>,
    plan: &ImuPlan,
    linearize: L,
    spin: S,
    op: Ring,
) -> bool {
    let samples = plan.samples@;
    let n = samples.len() as int;
    let tail = step_between(plan.reached, plan.frame_t, op);
    &&& states.len() == (if n == 0 {
        1
    } else {
        n
    })
    &&& states[0] == *before
    &&& forall|k: int|
        0 <= k < n - 1 ==> #[trigger] stepped_at(esikf, states, samples, k, linearize, spin, op)
    &&& if n > 0 && (Double { bits: TAIL_LIMIT }).spec_lt(tail) {
        esikf.moved_on(
            &states[n - 1],
            after,
            samples[n - 1].omega@,
            samples[n - 1].acc@,
            tail,
            linearize,
            spin,
            op,
        )
    } else {
        *after == states.last()
    }
}

/// The length of a time step: not less than the shortest.
pub fn time_step(dt: Double) -> (d: Double)
    ensures
        d == dt.greater(Double { bits: LEAST_STEP }),
{
    dt.max(Double { bits: LEAST_STEP })
}

/// Whether the state is carried on from the last measurement to the frame, given
/// the length of that step.
pub fn carries_on(step: Double) -> (yes: bool)
    ensures
        yes == (Double { bits: TAIL_LIMIT }).spec_lt(step),
{
    Double { bits: TAIL_LIMIT }.lt(step)
}

/// Whether rays are cast to find more points.
pub fn wants_raycast(visible: usize) -> (yes: bool)
    ensures
        yes == (visible < RAYCAST_BELOW),
{
    visible < RAYCAST_BELOW
}

impl VoidOdometry {
    /// Whether map and state are well formed.
    pub open spec fn wf(&self) -> bool {
        self.map.wf() && self.state.wf()
    }

    /// Whether everything but the state, the queue and the counters is equal.
    pub open spec fn same_setup(&self, other: &VoidOdometry) -> bool {
        &&& self.esikf == other.esikf
        &&& self.map == other.map
        &&& self.options == other.options
        &&& self.gate == other.gate
        &&& self.visual_warmup_frames == other.visual_warmup_frames
        &&& self.map_warmup_frames == other.map_warmup_frames
    }

    /// A pipeline at the start: at rest, in the given orientation, under gravity,
    /// with an empty map. `fov` is half the angle of view in radians.
    pub fn new(
        options: VoidOptions,
        gate: UpdateGateConfig,
        visual_warmup_frames: u32,
        map_warmup_frames: u32,
        rot0: [Double; 9],
        fov: Double,
    ) -> (o: VoidOdometry)
        requires
            options.map.max_layer < usize::MAX,
        ensures
            o.wf(),
            o.esikf.noise.gyr == options.imu.gyr,
            o.esikf.noise.acc == options.imu.acc,
            o.esikf.noise.bias_gyr == options.imu.bias_gyr,
            o.esikf.noise.bias_acc == options.imu.bias_acc,
            o.esikf.noise.inv_expo == options.imu.inv_expo,
            o.esikf.gravity_est && o.esikf.bias_est,
            o.esikf.exposure_est == options.estimate_exposure,
            call_ensures(VoxelMap::new, (options.map.options(fov),), o.map),
            o.options == options,
            o.gate == gate,
            o.visual_warmup_frames == visual_warmup_frames,
            o.map_warmup_frames == map_warmup_frames,
            o.state.rot == rot0,
            o.state.pos == options.t0,
            o.state.gravity@ == seq![
                Double { bits: 0 },
                Double { bits: 0 },
                Double { bits: GRAVITY_Z },
            ],
            exists|s: State| #[trigger]
                call_ensures(<State as Default>::default, (), s) && o.state.vel == s.vel
                    && o.state.bias_g == s.bias_g && o.state.bias_a == s.bias_a
                    && o.state.inv_expo_time == s.inv_expo_time && o.state.cov == s.cov,
            o.imu_queue@.len() == 0,
            o.last_frame_t is None,
            o.frame_id == 0,
            o.rejected_updates == 0,
    {
        let start = State::default();
        let gravity = [Double::zero(), Double::zero(), Double { bits: GRAVITY_Z }];
        assert(gravity@ =~= seq![
            Double { bits: 0 },
            Double { bits: 0 },
            Double { bits: GRAVITY_Z },
        ]);
        let ghost s = start;
        let state = State {
            rot: rot0,
            pos: options.t0,
            vel: start.vel,
            bias_g: start.bias_g,
            bias_a: start.bias_a,
            gravity,
            inv_expo_time: start.inv_expo_time,
            cov: start.cov,
        };
        assert(call_ensures(<State as Default>::default, (), s));
        let mut esikf = Propagator::new().with_noise(options.imu.noise());
        if !options.estimate_exposure {
            esikf.disable_exposure_est();
        }
        let map = VoxelMap::new(options.map.map_options(fov));
        VoidOdometry {
            esikf,
            map,
            options,
            gate,
            visual_warmup_frames,
            map_warmup_frames,
            state,
            imu_queue: Vec::new(),
            last_frame_t: None,
            frame_id: 0,
            rejected_updates: 0,
        }
    }

    /// Takes an inertial measurement of the body, turned into the camera frame.
    pub fn process_imu<R: Fn([Double; 9], [Double; 3]) -> [Double; 3]>(
        &mut self,
        imu: &ImuSample,
        rotate: &R,
    )
        requires
            rotates(*rotate),
        ensures
            final(self).same_setup(old(self)),
            final(self).state == old(self).state,
            final(self).last_frame_t == old(self).last_frame_t,
            final(self).frame_id == old(self).frame_id,
            final(self).rejected_updates == old(self).rejected_updates,
            final(self).imu_queue@ == old(self).imu_queue@.push(
                ImuSample {
                    t: imu.t,
                    omega: rotated(*rotate, old(self).options.body_ext_rot, imu.omega),
                    acc: rotated(*rotate, old(self).options.body_ext_rot, imu.acc),
                },
            ),
    {
        let m = self.options.body_ext_rot;
        let omega = rotate(m, imu.omega);
        let acc = rotate(m, imu.acc);
        proof {
            assert(call_ensures(*rotate, (m, imu.omega), omega));
            assert(call_ensures(*rotate, (m, imu.omega), rotated(*rotate, m, imu.omega)));
            assert(call_ensures(*rotate, (m, imu.acc), acc));
            assert(call_ensures(*rotate, (m, imu.acc), rotated(*rotate, m, imu.acc)));
        }
        self.imu_queue.push(ImuSample { t: imu.t, omega, acc });
    }

    /// Begins a frame: counts it, and takes the measurements that are due from the
    /// queue. The frame's time is the later of the two images'.
    pub fn begin_frame<P: Fn(Double, Double) -> Double>(
        &mut self,
        depth_t: Double,
        camera_t: Double,
        plus: &P,
    ) -> (plan: ImuPlan)
        requires
            binary(*plus),
            old(self).frame_id < u32::MAX,
        ensures
            final(self).same_setup(old(self)),
            final(self).state == old(self).state,
            final(self).last_frame_t == old(self).last_frame_t,
            final(self).frame_id == old(self).frame_id + 1,
            final(self).rejected_updates == old(self).rejected_updates,
            plan.frame_t == depth_t.greater(camera_t),
            ({
                let limit = of_two(*plus, plan.frame_t, Double { bits: TIME_SLACK });
                let n = due(old(self).imu_queue@, limit, 0);
                &&& plan.samples@ == old(self).imu_queue@.take(n)
                &&& final(self).imu_queue@ == old(self).imu_queue@.skip(n)
            }),
            plan.reached == (if plan.samples@.len() >= 2 {
                plan.samples@.last().t
            } else {
                match old(self).last_frame_t {
                    Some(t) => t,
                    None => plan.frame_t,
                }
            }),
    {
        let frame_t = depth_t.max(camera_t);
        self.frame_id += 1;
        let limit = apply_two(plus, frame_t, Double { bits: TIME_SLACK });
        let mut n: usize = 0;
        while n < self.imu_queue.len() && !limit.lt(self.imu_queue[n].t)
            invariant
                n <= self.imu_queue@.len(),
                due(self.imu_queue@, limit, 0) == due(self.imu_queue@, limit, n as int),
            decreases self.imu_queue@.len() - n,
        {
            n += 1;
        }
        let rest = self.imu_queue.split_off(n);
        let mut samples: Vec<ImuSample> = rest;
        std::mem::swap(&mut samples, &mut self.imu_queue);
        assert(samples@ =~= old(self).imu_queue@.take(n as int));
        assert(self.imu_queue@ =~= old(self).imu_queue@.skip(n as int));
        let reached = if samples.len() >= 2 {
            samples[samples.len() - 1].t
        } else {
            match self.last_frame_t {
                Some(t) => t,
                None => frame_t,
            }
        };
        ImuPlan { frame_t, samples, reached }
    }

    /// Moves the state over the measurements of a frame, from each to the next with
    /// the mean of their rates, and on to the frame if enough time is left.
    pub fn propagate<
        L: Fn([Double; 9], [Double; 3], [Double; 3], Double) -> (TransitionBlocks, NoiseBlocks),
        S: Fn([Double; 9], [Double; 3], Double) -> [Double; 9],
        P: Fn(Double, Double) -> Double,
        T: Fn(Double, Double) -> Double,
    >(&mut self, plan: &ImuPlan, linearize: &L, spin: &S, plus: &P, times: &T)
        requires
            old(self).wf(),
            linearizes(*linearize),
            spins(*spin),
            binary(*plus),
            binary(*times),
        ensures
            final(self).wf(),
            final(self).same_setup(old(self)),
            final(self).imu_queue == old(self).imu_queue,
            final(self).last_frame_t == old(self).last_frame_t,
            final(self).frame_id == old(self).frame_id,
            final(self).rejected_updates == old(self).rejected_updates,
            exists|states: Seq<State>| #[trigger]
                moved_over(
                    &old(self).esikf,
                    &old(self).state,
                    &final(self).state,
                    states,
                    plan,
                    *linearize,
                    *spin,
                    ring(*plus, *times),
                ),
    {
        let ghost op = ring(*plus, *times);
        let ghost first = *self;
        let ghost mut states: Seq<State> = seq![self.state];
        let n: usize = plan.samples.len();
        if n == 0 {
            assert(moved_over(
                &first.esikf,
                &first.state,
                &self.state,
                states,
                plan,
                *linearize,
                *spin,
                op,
            ));
            return;
        }
        let mut i: usize = 0;
        while i < n - 1
            invariant
                0 < n,
                n == plan.samples@.len(),
                i <= n - 1,
                op == ring(*plus, *times),
                linearizes(*linearize),
                spins(*spin),
                binary(*plus),
                binary(*times),
                self.wf(),
                *self == (VoidOdometry { state: self.state, ..first }),
                states.len() == i + 1,
                states[0] == first.state,
                states[i as int] == self.state,
                forall|k: int|
                    0 <= k < i ==> #[trigger] stepped_at(
                        &first.esikf,
                        states,
                        plan.samples@,
                        k,
                        *linearize,
                        *spin,
                        op,
                    ),
            decreases n - i,
        {
            let (a, b) = (plan.samples[i], plan.samples[i + 1]);
            let dt = time_step(apply_two(plus, b.t, a.t.neg()));
            let half = Double { bits: HALF_BITS };
            let omega = times3(&plus3(&a.omega, &b.omega, plus, times), half, plus, times);
            let acc = times3(&plus3(&a.acc, &b.acc, plus, times), half, plus, times);
            let ghost before = states;
            self.esikf.propagate(&mut self.state, &omega, &acc, dt, linearize, spin, plus, times);
            proof {
                states = before.push(self.state);
                assert(states[i as int] == before[i as int]);
                assert forall|k: int| 0 <= k < i + 1 implies #[trigger] stepped_at(
                    &first.esikf,
                    states,
                    plan.samples@,
                    k,
                    *linearize,
                    *spin,
                    op,
                ) by {
                    if k < i {
                        assert(stepped_at(
                            &first.esikf,
                            before,
                            plan.samples@,
                            k,
                            *linearize,
                            *spin,
                            op,
                        ));
                        assert(states[k] == before[k] && states[k + 1] == before[k + 1]);
                    }
                }
            }
            i += 1;
        }
        let last = plan.samples[n - 1];
        let dt = time_step(apply_two(plus, plan.frame_t, plan.reached.neg()));
        if carries_on(dt) {
            self.esikf.propagate(
                &mut self.state,
                &last.omega,
                &last.acc,
                dt,
                linearize,
                spin,
                plus,
                times,
            );
        }
        assert(moved_over(
            &first.esikf,
            &first.state,
            &self.state,
            states,
            plan,
            *linearize,
            *spin,
            op,
        ));
    }

    /// Judges a depth update: accepts its state, or keeps the propagated one and
    /// counts a rejection.
    pub fn judge_depth(
        &mut self,
        report: &mut FrameReport,
        inliers: usize,
        iterations: usize,
        state: State,
        jump: Jump,
    )
        requires
            old(self).wf(),
            state.wf(),
            old(self).rejected_updates < usize::MAX,
            old(report).rejected < usize::MAX,
        ensures
            final(self).wf(),
            final(self).same_setup(old(self)),
            final(self).imu_queue == old(self).imu_queue,
            final(self).last_frame_t == old(self).last_frame_t,
            final(self).frame_id == old(self).frame_id,
            depth_judged(old(self), final(self), old(report), final(report), state, jump),
            *final(report) == (FrameReport {
                depth_inliers: inliers,
                depth_iterations: iterations,
                depth_converged: iterations < DEPTH_ITERATIONS && inliers > 0,
                rejected: final(report).rejected,
                ..*old(report)
            }),
    {
        if jump.dp.lt(self.gate.max_pos_delta) && jump.drot.lt(self.gate.max_rot_delta) {
            self.state = state;
        } else {
            self.rejected_updates += 1;
            report.rejected += 1;
        }
        report.depth_inliers = inliers;
        report.depth_iterations = iterations;
        report.depth_converged = iterations < DEPTH_ITERATIONS && inliers > 0;
    }

    /// The stage that follows another; none after the last. Early frames are not
    /// updated with the image.
    pub fn next_stage(&self, stage: FrameStage) -> (next: Option<FrameStage>)
        ensures
            next == (match stage {
                FrameStage::Propagate => Some(FrameStage::Depth),
                FrameStage::Depth => if self.frame_id <= self.visual_warmup_frames {
                    Some(FrameStage::Mapping)
                } else {
                    Some(FrameStage::Visual)
                },
                FrameStage::Visual => Some(FrameStage::Mapping),
                FrameStage::Mapping => None,
            }),
    {
        match stage {
            FrameStage::Propagate => Some(FrameStage::Depth),
            FrameStage::Depth => if self.visual_warmup() {
                Some(FrameStage::Mapping)
            } else {
                Some(FrameStage::Visual)
            },
            FrameStage::Visual => Some(FrameStage::Mapping),
            FrameStage::Mapping => None,
        }
    }

    /// Whether the frame is too early for a visual update.
    pub fn visual_warmup(&self) -> (yes: bool)
        ensures
            yes == (self.frame_id <= self.visual_warmup_frames),
    {
        self.frame_id <= self.visual_warmup_frames
    }

    /// Judges a visual update: accepts its state, or keeps the one before and
    /// counts a rejection. Unless the exposure is estimated, it stays at one.
    pub fn judge_visual(
        &mut self,
        report: &mut FrameReport,
        iterations: usize,
        state: State,
        jump: Jump,
    )
        requires
            old(self).wf(),
            state.wf(),
            old(self).rejected_updates < usize::MAX,
            old(report).rejected < usize::MAX,
        ensures
            final(self).wf(),
            final(self).same_setup(old(self)),
            final(self).imu_queue == old(self).imu_queue,
            final(self).last_frame_t == old(self).last_frame_t,
            final(self).frame_id == old(self).frame_id,
            visual_judged(
                old(self),
                final(self),
                old(report),
                final(report),
                iterations,
                state,
                jump,
            ),
    {
        if jump.dp.lt(self.gate.max_pos_delta) && jump.dvel.lt(self.gate.max_vel_delta)
            && jump.drot.lt(self.gate.max_rot_delta) {
            let mut accepted = state;
            if !self.options.estimate_exposure {
                accepted.inv_expo_time = Double::one();
            }
            self.state = accepted;
            report.visual_iterations = iterations;
            report.visual_healthy = iterations > 0;
        } else {
            self.rejected_updates += 1;
            report.rejected += 1;
            report.visual_iterations = 0;
            report.visual_healthy = false;
        }
    }

    /// What the frame does to the map.
    pub fn map_step(&self) -> (step: MapStep)
        ensures
            step == (if self.frame_id <= self.map_warmup_frames {
                MapStep::Skip
            } else if self.frame_id <= self.visual_warmup_frames {
                MapStep::Register
            } else {
                MapStep::RegisterAndUpdateVisual
            }),
    {
        if self.frame_id <= self.map_warmup_frames {
            MapStep::Skip
        } else if self.visual_warmup() {
            MapStep::Register
        } else {
            MapStep::RegisterAndUpdateVisual
        }
    }

    /// Ends a frame and reports it.
    pub fn finish_frame(&mut self, frame_t: Double, report: &FrameReport, timings: FrameTimings) -> (out:
        OdometryOutput)
        requires
            old(self).wf(),
        ensures
            final(self).wf(),
            final(self).same_setup(old(self)),
            final(self).state == old(self).state,
            final(self).imu_queue == old(self).imu_queue,
            final(self).last_frame_t == Some(frame_t),
            final(self).frame_id == old(self).frame_id,
            final(self).rejected_updates == old(self).rejected_updates,
            out.t == frame_t,
            out.rotation == old(self).state.rot,
            out.position == old(self).state.pos,
            out.velocity == old(self).state.vel,
            out.covariance_diag@.len() == DIM_STATE,
            forall|i: int|
                0 <= i < DIM_STATE ==> #[trigger] out.covariance_diag@[i] == old(self).state.cov.at(
                    i,
                    i,
                ),
            out.depth_inliers == report.depth_inliers,
            out.depth_iterations == report.depth_iterations,
            out.visual_iterations == report.visual_iterations,
            out.visual_healthy == report.visual_healthy,
            out.depth_converged == report.depth_converged,
            out.map_visual_points == old(self).map.pool().len(),
            out.rejected_updates == report.rejected,
            out.rejected_total == old(self).rejected_updates,
            out.timings == timings,
    {
        self.last_frame_t = Some(frame_t);
        let mut covariance_diag: Vec<Double> = Vec::new();
        let mut i: usize = 0;
        while i < DIM_STATE
            invariant
                i <= DIM_STATE,
                self.state.wf(),
                covariance_diag@.len() == i,
                forall|k: int|
                    0 <= k < i ==> #[trigger] covariance_diag@[k] == self.state.cov.at(k, k),
            decreases DIM_STATE - i,
        {
            covariance_diag.push(self.state.cov.get(i, i));
            i += 1;
        }
        OdometryOutput {
            t: frame_t,
            rotation: self.state.rot,
            position: self.state.pos,
            velocity: self.state.vel,
            covariance_diag,
            depth_inliers: report.depth_inliers,
            depth_iterations: report.depth_iterations,
            visual_iterations: report.visual_iterations,
            visual_healthy: report.visual_healthy,
            depth_converged: report.depth_converged,
            map_visual_points: self.map.visual_point_count(),
            rejected_updates: report.rejected,
            rejected_total: self.rejected_updates,
            timings,
        }
    }

    /// The state.
    pub fn state(&self) -> (s: &State)
        ensures
            *s == self.state,
    {
        &self.state
    }

    /// The numbers of root voxels and of visual points.
    pub fn map_stats(&self) -> (n: (usize, usize))
        requires
            self.map.wf(),
        ensures
            n.0 == self.map.voxels().dom().len(),
            n.1 == self.map.pool().len(),
    {
        (self.map.root_count(), self.map.visual_point_count())
    }

    /// The rotation from the body to the camera frame, row by row.
    pub fn body_ext(&self) -> (r: [Double; 9])
        ensures
            r == self.options.body_ext_rot,
    {
        self.options.body_ext_rot
    }

    /// Puts the platform at rest at a known pose, at the given time.
    pub fn set_initial_pose(&mut self, t: Double, pos: [Double; 3], rot: [Double; 9])
        requires
            old(self).wf(),
        ensures
            final(self).wf(),
            final(self).same_setup(old(self)),
            final(self).state.rot == rot,
            final(self).state.pos == pos,
            final(self).state.vel@ == zeros(),
            final(self).state == (State {
                rot,
                pos,
                vel: final(self).state.vel,
                ..old(self).state
            }),
            final(self).last_frame_t == Some(t),
            final(self).imu_queue == old(self).imu_queue,
            final(self).frame_id == old(self).frame_id,
            final(self).rejected_updates == old(self).rejected_updates,
    {
        let o = Double::zero();
        self.state.rot = rot;
        self.state.pos = pos;
        self.state.vel = [o, o, o];
        assert(self.state.vel@ =~= zeros());
        self.last_frame_t = Some(t);
    }

    /// The positions of at most `max_points` visual points, evenly spread over the
    /// order in which they came.
    pub fn map_points(&self, max_points: usize) -> (points: Vec<[Double; 3]>)
        requires
            max_points > 0,
        ensures
            ({
                let n = self.map.pool().len() as int;
                let step = spread_step(n, max_points as int);
                &&& step >= 1
                &&& points@.len() == (n + step - 1) / step
                &&& points@.len() <= max_points
                &&& forall|i: int|
                    0 <= i < points@.len() ==> 0 <= #[trigger] spaced(i, step) < n
                &&& forall|i: int|
                    0 <= i < points@.len() ==> #[trigger] points@[i] == self.map.pool()[spaced(
                        i,
                        step,
                    )].pos
            }),
    {
        let pool = self.map.visual_points();
        let n: usize = pool.len();
        let top: usize = if n == 0 {
            1
        } else {
            n
        };
        let step: usize = (top - 1) / max_points + 1;
        proof {
            lemma_spread(n as int, max_points as int);
        }
        let mut points: Vec<[Double; 3]> = Vec::new();
        let mut k: usize = 0;
        let ghost whole = (n + step - 1) / (step as int);
        assert(0 * step == 0) by (nonlinear_arith);
        while k < n
            invariant
                n == pool@.len(),
                pool@ == self.map.pool(),
                step >= 1,
                step == spread_step(n as int, max_points as int),
                whole == (n + step - 1) / (step as int),
                points@.len() <= whole,
                k == spaced(points@.len() as int, step as int) || (k == n && points@.len() == whole),
                k < n ==> points@.len() < whole,
                k <= n,
                k == n ==> points@.len() == whole,
                forall|i: int|
                    0 <= i < points@.len() ==> 0 <= #[trigger] spaced(i, step as int) < n,
                forall|i: int|
                    0 <= i < points@.len() ==> #[trigger] points@[i] == self.map.pool()[spaced(
                        i,
                        step as int,
                    )].pos,
            decreases n - k,
        {
            points.push(pool[k].pos);
            proof {
                lemma_next_place(n as int, step as int, points@.len() as int);
            }
            k = if n - k > step {
                k + step
            } else {
                n
            };
        }
        points
    }
}

/// The place of item `i` of those that are `step` apart.
pub open spec fn spaced(i: int, step: int) -> int {
    i * step
}

/// The step that spreads `most` items over `n`.
pub open spec fn spread_step(n: int, most: int) -> int {
    ((if n == 0 {
        1
    } else {
        n
    }) + most - 1) / most
}

/// The step as it is computed, and how many items it gives.
proof fn lemma_spread(n: int, most: int)
    requires
        n >= 0,
        most > 0,
    ensures
        ({
            let top = if n == 0 {
                1
            } else {
                n
            };
            let step = spread_step(n, most);
            &&& step == (top - 1) / most + 1
            &&& step >= 1
            &&& (n + step - 1) / step <= most
            &&& n == 0 ==> (n + step - 1) / step == 0
            &&& n > 0 ==> (n + step - 1) / step >= 1
        }),
{
    let top = if n == 0 {
        1
    } else {
        n
    };
    let step = spread_step(n, most);
    assert((top + most - 1) / most == (top - 1) / most + 1) by (nonlinear_arith)
        requires
            most > 0,
            top >= 1,
    ;
    assert((top - 1) / most >= 0) by (nonlinear_arith)
        requires
            most > 0,
            top >= 1,
    ;
    assert(top <= most * step) by (nonlinear_arith)
        requires
            most > 0,
            top >= 1,
            step == (top - 1) / most + 1,
    ;
    assert((n + step - 1) / step <= most) by (nonlinear_arith)
        requires
            step >= 1,
            n <= most * step,
            n >= 0,
    ;
    if n > 0 {
        assert((n + step - 1) / step >= 1) by (nonlinear_arith)
            requires
                step >= 1,
                n >= 1,
        ;
    } else {
        assert((step - 1) / step == 0) by (nonlinear_arith)
            requires
                step >= 1,
        ;
    }
}

/// The item after the first `m` exists exactly if its place does.
proof fn lemma_next_place(n: int, step: int, m: int)
    requires
        step >= 1,
        n >= 1,
        m >= 1,
        (m - 1) * step < n,
    ensures
        m * step == (m - 1) * step + step,
        m * step < n ==> m < (n + step - 1) / step,
        m * step >= n ==> m == (n + step - 1) / step,
        m <= (n + step - 1) / step,
        0 <= (m - 1) * step,
{
    assert(m * step == (m - 1) * step + step) by (nonlinear_arith);
    assert(0 <= (m - 1) * step) by (nonlinear_arith)
        requires
            m >= 1,
            step >= 1,
    ;
    let q = (n + step - 1) / step;
    if m * step < n {
        assert(m < q) by (nonlinear_arith)
            requires
                m * step < n,
                step >= 1,
                q == (n + step - 1) / step,
        ;
    } else {
        assert(m == q) by (nonlinear_arith)
            requires
                (m - 1) * step < n,
                n <= m * step,
                step >= 1,
                q == (n + step - 1) / step,
        ;
    }
}

/// How a visible point lies in the image.
#[derive(Clone, Copy, Debug)]
pub struct SeenPoint {
    /// The depth (m).
    pub depth: Double,
    /// The pixel.
    pub pixel: [Double; 2],
}

/// The cell that a point occupies, if any.
pub open spec fn occupied_cell(p: SeenPoint, cols: int, rows: int) -> Option<(int, int)> {
    if p.depth.spec_le(Double { bits: 0 }) || p.pixel@[0].spec_lt(Double { bits: 0 })
        || p.pixel@[1].spec_lt(Double { bits: 0 }) {
        None
    } else {
        Some(
            (
                capped(p.pixel@[0].index_clamped() / OCCUPANCY_CELL as int, cols),
                capped(p.pixel@[1].index_clamped() / OCCUPANCY_CELL as int, rows),
            ),
        )
    }
}

/// The index, or the last one.
pub open spec fn capped(k: int, n: int) -> int {
    if k < n {
        k
    } else {
        n - 1
    }
}

/// The cells of an image that visible points occupy, row by row.
pub fn occupied_grid(points: &Vec<SeenPoint>, cols: usize, rows: usize) -> (grid: Vec<bool>)
    requires
        cols > 0,
        rows > 0,
        cols * rows <= usize::MAX,
    ensures
        grid@.len() == cols * rows,
        forall|c: int, r: int|
            0 <= c < cols && 0 <= r < rows ==> #[trigger] grid@[cell_place(c, r, cols as int)] == (
            exists|i: int|
                0 <= i < points@.len() && occupied_cell(
                    #[trigger] points@[i],
                    cols as int,
                    rows as int,
                ) == Some((c, r))),
{
    let total: usize = cols * rows;
    let mut grid: Vec<bool> = Vec::new();
    while grid.len() < total
        invariant
            grid@.len() <= total,
            forall|k: int| 0 <= k < grid@.len() ==> !#[trigger] grid@[k],
        decreases total - grid@.len(),
    {
        grid.push(false);
    }
    assert forall|c: int, r: int| 0 <= c < cols && 0 <= r < rows implies 0 <= #[trigger] cell_place(
        c,
        r,
        cols as int,
    ) < total by {
        crate::matrix::lemma_place_in_range(r, c, rows as int, cols as int);
        assert(rows * cols == cols * rows) by (nonlinear_arith);
    }
    let mut i: usize = 0;
    while i < points.len()
        invariant
            i <= points@.len(),
            cols > 0,
            rows > 0,
            total == cols * rows,
            grid@.len() == total,
            forall|c: int, r: int|
                0 <= c < cols && 0 <= r < rows ==> 0 <= #[trigger] cell_place(c, r, cols as int)
                    < total,
            forall|c: int, r: int|
                0 <= c < cols && 0 <= r < rows ==> #[trigger] grid@[cell_place(c, r, cols as int)]
                    == (exists|k: int|
                    0 <= k < i && occupied_cell(
                        #[trigger] points@[k],
                        cols as int,
                        rows as int,
                    ) == Some((c, r))),
        decreases points@.len() - i,
    {
        let p = points[i];
        if !p.depth.le(Double::zero()) && !p.pixel[0].lt(Double::zero()) && !p.pixel[1].lt(
            Double::zero(),
        ) {
            let c: usize = p.pixel[0].to_usize() / OCCUPANCY_CELL;
            let r: usize = p.pixel[1].to_usize() / OCCUPANCY_CELL;
            let col: usize = if c < cols {
                c
            } else {
                cols - 1
            };
            let row: usize = if r < rows {
                r
            } else {
                rows - 1
            };
            assert(occupied_cell(points@[i as int], cols as int, rows as int) == Some(
                (col as int, row as int),
            ));
            assert(0 <= cell_place(col as int, row as int, cols as int) < total);
            let ghost before = grid@;
            assert(0 <= row * cols) by (nonlinear_arith);
            grid.set(row * cols + col, true);
            proof {
                assert forall|a: int, b: int| 0 <= a < cols && 0 <= b < rows implies (
                #[trigger] grid@[cell_place(a, b, cols as int)] == (exists|k: int|
                    0 <= k < i + 1 && occupied_cell(
                        #[trigger] points@[k],
                        cols as int,
                        rows as int,
                    ) == Some((a, b)))) by {
                    assert(0 <= cell_place(a, b, cols as int) < total);
                    assert(before[cell_place(a, b, cols as int)] == (exists|k: int|
                        0 <= k < i && occupied_cell(
                            #[trigger] points@[k],
                            cols as int,
                            rows as int,
                        ) == Some((a, b))));
                    if a == col && b == row {
                        assert(occupied_cell(points@[i as int], cols as int, rows as int) == Some(
                            (a, b),
                        ));
                    } else {
                        crate::matrix::lemma_place_in_range(b, a, rows as int, cols as int);
                        if cell_place(a, b, cols as int) == cell_place(
                            col as int,
                            row as int,
                            cols as int,
                        ) {
                            crate::matrix::lemma_place_injective(
                                b,
                                a,
                                row as int,
                                col as int,
                                cols as int,
                            );
                        }
                    }
                }
            }
        }
        i += 1;
    }
    grid
}

/// The place of a cell in a grid, row by row.
pub open spec fn cell_place(c: int, r: int, cols: int) -> int {
    r * cols + c
}

/// Whether a depth update was judged: its state is taken, or the one before stays
/// and a rejection is counted.
pub open spec fn depth_judged(
    before: &VoidOdometry,
    after: &VoidOdometry,
    report: &FrameReport,
    told: &FrameReport,
    state: State,
    jump: Jump,
) -> bool {
    if depth_accepted(before.gate, jump) {
        &&& after.state == state
        &&& after.rejected_updates == before.rejected_updates
        &&& told.rejected == report.rejected
    } else {
        &&& after.state == before.state
        &&& after.rejected_updates == before.rejected_updates + 1
        &&& told.rejected == report.rejected + 1
    }
}

/// Whether a visual update was judged: its state is taken, with an exposure of one
/// unless it is estimated, or the one before stays and a rejection is counted.
pub open spec fn visual_judged(
    before: &VoidOdometry,
    after: &VoidOdometry,
    report: &FrameReport,
    told: &FrameReport,
    iterations: usize,
    state: State,
    jump: Jump,
) -> bool {
    if visual_accepted(before.gate, jump) {
        &&& after.state == (State {
            inv_expo_time: if before.options.estimate_exposure {
                state.inv_expo_time
            } else {
                Double { bits: ONE_BITS }
            },
            ..state
        })
        &&& after.rejected_updates == before.rejected_updates
        &&& *told == (FrameReport {
            visual_iterations: iterations,
            visual_healthy: iterations > 0,
            ..*report
        })
    } else {
        &&& after.state == before.state
        &&& after.rejected_updates == before.rejected_updates + 1
        &&& *told == (FrameReport {
            visual_iterations: 0,
            visual_healthy: false,
            rejected: (report.rejected + 1) as usize,
            ..*report
        })
    }
}

/// Refused updates leave no trace in a frame: where both are refused, the state at
/// its end is the propagated one, and two rejections are counted.
pub proof fn law_refused_updates_leave_no_trace(
    propagated: &VoidOdometry,
    by_depth: &VoidOdometry,
    by_image: &VoidOdometry,
    report: &FrameReport,
    after_depth: &FrameReport,
    after_image: &FrameReport,
    depth_state: State,
    depth_jump: Jump,
    iterations: usize,
    visual_state: State,
    visual_jump: Jump,
)
    requires
        report.rejected + 2 <= usize::MAX,
        depth_judged(propagated, by_depth, report, after_depth, depth_state, depth_jump),
        by_depth.same_setup(propagated),
        visual_judged(
            by_depth,
            by_image,
            after_depth,
            after_image,
            iterations,
            visual_state,
            visual_jump,
        ),
        !depth_accepted(propagated.gate, depth_jump),
        !visual_accepted(propagated.gate, visual_jump),
    ensures
        by_image.state == propagated.state,
        by_image.rejected_updates == propagated.rejected_updates + 2,
        after_image.rejected == report.rejected + 2,
        !after_image.visual_healthy,
{
}

/// What passes the visual gate passes the depth gate; what passes stays below the
/// limits; a jump that is not a number never passes.
pub proof fn law_gates_bound_jumps(gate: UpdateGateConfig, j: Jump)
    ensures
        visual_accepted(gate, j) ==> depth_accepted(gate, j),
        depth_accepted(gate, j) ==> !gate.max_pos_delta.spec_le(j.dp) && !gate.max_rot_delta.spec_le(
            j.drot,
        ),
        j.dp.spec_is_nan() || j.drot.spec_is_nan() ==> !depth_accepted(gate, j),
{
}

} // verus!
