//! The estimates of the variables: the inertial state, its calibration, the time
//! offset, the cameras and the clones of the window. Those of the features stay
//! with the features.

use vstd::prelude::*;

use crate::double::{Double, ONE_BITS};
use crate::vio::jacobian::PoseValue;
use crate::vio::options::ImuModel;
use crate::vio::standstill::ImuCalibration;
use crate::vio::state::State;

verus! {

/// A pose, a velocity and the biases of the sensors.
#[derive(Clone, Copy, Debug)]
pub struct InertialValues {
    /// The pose.
    pub pose: PoseValue,
    /// The velocity in the world.
    pub vel: [Double; 3],
    /// The bias of the gyroscope.
    pub bias_g: [Double; 3],
    /// The bias of the accelerometer.
    pub bias_a: [Double; 3],
}

/// The estimates of the variables.
#[derive(Clone, Debug)]
pub struct Estimates {
    /// The inertial state.
    pub inertial: InertialValues,
    /// The inertial state as it was first estimated.
    pub inertial_first: InertialValues,
    /// Scale and skew of the gyroscope.
    pub dw: [Double; 6],
    /// Scale and skew of the accelerometer.
    pub da: [Double; 6],
    /// How the gyroscope takes up acceleration, column by column.
    pub tg: [Double; 9],
    /// The turn from the gyroscope to the sensor, row by row.
    pub gyro_to_imu: [Double; 9],
    /// The turn from the accelerometer to the sensor, row by row.
    pub acc_to_imu: [Double; 9],
    /// The time offset of the cameras.
    pub dt: Double,
    /// The intrinsics of the cameras.
    pub intrinsics: Vec<[Double; 8]>,
    /// The clones of the window, each as it is and as it was first estimated.
    pub clones: Vec<(PoseValue, PoseValue)>,
    /// The cameras in the body.
    pub calibs: Vec<PoseValue>,
}

/// One on the diagonal of three rows, zero beside it.
pub open spec fn upright() -> Seq<Double> {
    let z = Double { bits: 0 };
    let o = Double { bits: ONE_BITS };
    seq![o, z, z, z, o, z, z, z, o]
}

/// Whether a pose is at the origin, upright.
pub open spec fn at_origin(pose: PoseValue) -> bool {
    &&& pose.rot@ == upright()
    &&& is_zero(pose.pos@)
}

/// Whether all numbers of a list are zero.
pub open spec fn is_zero(v: Seq<Double>) -> bool {
    forall|i: int| 0 <= i < v.len() ==> #[trigger] v[i] == (Double { bits: 0 })
}

/// Whether an inertial state rests at the origin, without biases.
pub open spec fn at_rest(v: InertialValues) -> bool {
    &&& at_origin(v.pose)
    &&& is_zero(v.vel@)
    &&& is_zero(v.bias_g@)
    &&& is_zero(v.bias_a@)
}

/// The scale of one and the skew of zero that calibration starts from.
pub open spec fn plain_scale() -> Seq<Double> {
    let z = Double { bits: 0 };
    let o = Double { bits: ONE_BITS };
    seq![o, z, z, o, z, o]
}

/// Scale and skew as a matrix, row by row: below the diagonal for one model, above
/// it for the other.
pub open spec fn scale_matrix(model: ImuModel, v: Seq<Double>) -> Seq<Double> {
    let z = Double { bits: 0 };
    match model {
        ImuModel::Kalibr => seq![v[0], z, z, v[1], v[3], z, v[2], v[4], v[5]],
        ImuModel::Rpng => seq![v[0], v[1], v[3], z, v[2], v[4], z, z, v[5]],
    }
}

/// Nine numbers, column by column, as a matrix, row by row.
pub open spec fn by_rows(v: Seq<Double>) -> Seq<Double> {
    seq![v[0], v[3], v[6], v[1], v[4], v[7], v[2], v[5], v[8]]
}

/// Whether a calibration is that of the estimates.
pub open spec fn calibration_of(c: ImuCalibration, model: ImuModel, values: &Estimates) -> bool {
    &&& c.bias_g == values.inertial.bias_g
    &&& c.bias_a == values.inertial.bias_a
    &&& c.r_gyro_to_imu == values.gyro_to_imu
    &&& c.r_acc_to_imu == values.acc_to_imu
    &&& c.dw@ == scale_matrix(model, values.dw@)
    &&& c.da@ == scale_matrix(model, values.da@)
    &&& c.tg@ == by_rows(values.tg@)
}

/// Scale and skew as a matrix, row by row.
fn scale(model: ImuModel, v: &[Double; 6]) -> (m: [Double; 9])
    ensures
        m@ == scale_matrix(model, v@),
{
    let z = Double::zero();
    let m = match model {
        ImuModel::Kalibr => [v[0], z, z, v[1], v[3], z, v[2], v[4], v[5]],
        ImuModel::Rpng => [v[0], v[1], v[3], z, v[2], v[4], z, z, v[5]],
    };
    assert(m@ =~= scale_matrix(model, v@));
    m
}

/// The pose at the origin, upright.
fn origin() -> (pose: PoseValue)
    ensures
        at_origin(pose),
{
    let z = Double::zero();
    let o = Double::one();
    let pose = PoseValue { rot: [o, z, z, z, o, z, z, z, o], pos: [z, z, z] };
    assert(pose.rot@ =~= upright());
    pose
}

impl Estimates {
    /// Whether every clone and every camera of the state has its estimates.
    pub open spec fn fits(&self, st: &State) -> bool {
        &&& self.clones@.len() == st.clones_imu@.len()
        &&& self.calibs@.len() == st.calib_imu_to_cam@.len()
        &&& self.intrinsics@.len() == st.cam_intrinsics@.len()
    }

    /// The estimates that a state without clones starts with: at rest at the origin,
    /// scales of one, and cameras at the origin of the body.
    pub fn new(state: &State) -> (v: Estimates)
        requires
            state.clones_imu@.len() == 0,
        ensures
            v.fits(state),
            at_rest(v.inertial),
            v.inertial_first == v.inertial,
            v.dw@ == plain_scale(),
            v.da@ == plain_scale(),
            is_zero(v.tg@),
            v.gyro_to_imu@ == upright(),
            v.acc_to_imu@ == upright(),
            v.dt == (Double { bits: 0 }),
            forall|c: int| 0 <= c < v.intrinsics@.len() ==> is_zero(#[trigger] v.intrinsics@[c]@),
            forall|c: int| 0 <= c < v.calibs@.len() ==> at_origin(#[trigger] v.calibs@[c]),
    {
        let z = Double::zero();
        let o = Double::one();
        let plain = [o, z, z, o, z, o];
        assert(plain@ =~= plain_scale());
        let still = origin();
        let mut intrinsics: Vec<[Double; 8]> = Vec::new();
        while intrinsics.len() < state.cam_intrinsics.len()
            invariant
                intrinsics@.len() <= state.cam_intrinsics@.len(),
                z == (Double { bits: 0 }),
                forall|c: int|
                    0 <= c < intrinsics@.len() ==> is_zero(#[trigger] intrinsics@[c]@),
            decreases state.cam_intrinsics@.len() - intrinsics@.len(),
        {
            intrinsics.push([z, z, z, z, z, z, z, z]);
        }
        let mut calibs: Vec<PoseValue> = Vec::new();
        while calibs.len() < state.calib_imu_to_cam.len()
            invariant
                calibs@.len() <= state.calib_imu_to_cam@.len(),
                at_origin(still),
                forall|c: int| 0 <= c < calibs@.len() ==> at_origin(#[trigger] calibs@[c]),
            decreases state.calib_imu_to_cam@.len() - calibs@.len(),
        {
            calibs.push(still);
        }
        let inertial = InertialValues {
            pose: still,
            vel: [z, z, z],
            bias_g: [z, z, z],
            bias_a: [z, z, z],
        };
        Estimates {
            inertial,
            inertial_first: inertial,
            dw: plain,
            da: plain,
            tg: [z, z, z, z, z, z, z, z, z],
            gyro_to_imu: still.rot,
            acc_to_imu: still.rot,
            dt: z,
            intrinsics,
            clones: Vec::new(),
            calibs,
        }
    }

    /// Sets the inertial state, and what it is first estimated as.
    pub fn start_at(&mut self, given: InertialValues)
        ensures
            *final(self) == (Estimates { inertial: given, inertial_first: given, ..*old(self) }),
    {
        self.inertial = given;
        self.inertial_first = given;
    }
}

impl State {
    /// Scale and skew of the gyroscope, row by row.
    pub fn dm(&self, values: &Estimates) -> (m: [Double; 9])
        ensures
            m@ == scale_matrix(self.options.imu_model, values.dw@),
    {
        scale(self.options.imu_model, &values.dw)
    }

    /// Scale and skew of the accelerometer, row by row.
    pub fn da(&self, values: &Estimates) -> (m: [Double; 9])
        ensures
            m@ == scale_matrix(self.options.imu_model, values.da@),
    {
        scale(self.options.imu_model, &values.da)
    }

    /// How the gyroscope takes up acceleration, row by row.
    pub fn tg(&self, values: &Estimates) -> (m: [Double; 9])
        ensures
            m@ == by_rows(values.tg@),
    {
        let v = &values.tg;
        let m = [v[0], v[3], v[6], v[1], v[4], v[7], v[2], v[5], v[8]];
        assert(m@ =~= by_rows(v@));
        m
    }

    /// The calibration of the inertial sensor.
    pub fn imu_calibration(&self, values: &Estimates) -> (c: ImuCalibration)
        ensures
            calibration_of(c, self.options.imu_model, values),
    {
        ImuCalibration {
            bias_g: values.inertial.bias_g,
            bias_a: values.inertial.bias_a,
            r_gyro_to_imu: values.gyro_to_imu,
            r_acc_to_imu: values.acc_to_imu,
            dw: self.dm(values),
            da: self.da(values),
            tg: self.tg(values),
        }
    }

    /// The time offset of the cameras: zero unless it is calibrated.
    pub open spec fn spec_time_offset(&self, values: &Estimates) -> Double {
        if self.calib_dt_cam_to_imu is Some {
            values.dt
        } else {
            Double { bits: 0 }
        }
    }

    /// The time offset of the cameras: zero unless it is calibrated.
    pub fn time_offset(&self, values: &Estimates) -> (t: Double)
        ensures
            t == self.spec_time_offset(values),
    {
        if self.calib_dt_cam_to_imu.is_some() {
            values.dt
        } else {
            Double::zero()
        }
    }
}

} // verus!
