//! Features that the state estimates.

use vstd::prelude::*;

use crate::arith::{apply_two, binary, of_two, of_vectors};
use crate::double::Double;
use crate::vio::options::FeatRepresentation;

verus! {

/// A point written down in every way a feature can be.
#[derive(Clone, Copy, Debug)]
pub struct PointForms {
    /// The coordinates.
    pub xyz: [Double; 3],
    /// The coordinates divided by depth.
    pub bearing: [Double; 3],
    /// Azimuth, polar angle and inverse distance.
    pub full_inverse_depth: [Double; 3],
    /// The first two coordinates divided by depth, and the inverse depth.
    pub msckf_inverse_depth: [Double; 3],
}

/// The numbers from which a feature's coordinates are computed.
#[derive(Clone, Copy, Debug)]
pub enum PointSource {
    /// The coordinates themselves.
    Xyz([Double; 3]),
    /// Azimuth, polar angle and inverse distance.
    FullInverseDepth([Double; 3]),
    /// The first two coordinates divided by depth, and the inverse depth.
    MsckfInverseDepth([Double; 3]),
    /// The inverse depth, and the bearing along which it counts.
    SingleInverseDepth(Double, [Double; 3]),
}

/// A feature of the state.
#[derive(Clone, Debug)]
pub struct Landmark {
    /// The feature's number in the tracker.
    pub featid: usize,
    /// The first row in the covariance; negative while outside.
    pub id: i32,
    /// The camera that first saw the feature.
    pub unique_camera_id: i32,
    /// The anchor camera.
    pub anchor_cam_id: i32,
    /// The time of the anchor clone.
    pub anchor_clone_timestamp: Double,
    /// Whether the anchor was ever changed.
    pub has_had_anchor_change: bool,
    /// Whether the feature is to leave the state.
    pub should_marg: bool,
    /// Updates that failed one after another.
    pub update_fail_count: usize,
    /// The estimate.
    pub value: Vec<Double>,
    /// The first estimate.
    pub fej: Vec<Double>,
    /// The first bearing.
    pub uv_norm_zero: [Double; 3],
    /// The first bearing, at the first estimate.
    pub uv_norm_zero_fej: [Double; 3],
    /// How the position is written down.
    pub representation: FeatRepresentation,
}

/// The parameters that represent a point.
pub open spec fn parameters(rep: FeatRepresentation, p: PointForms) -> Seq<Double> {
    match rep {
        FeatRepresentation::Global3D | FeatRepresentation::Anchored3D => p.xyz@,
        FeatRepresentation::GlobalFullInverseDepth
        | FeatRepresentation::AnchoredFullInverseDepth => p.full_inverse_depth@,
        FeatRepresentation::AnchoredMsckfInverseDepth => p.msckf_inverse_depth@,
        FeatRepresentation::AnchoredInverseDepthSingle => seq![p.msckf_inverse_depth@[2]],
    }
}

impl Landmark {
    /// Whether both estimates have the representation's size.
    pub open spec fn wf(&self) -> bool {
        &&& self.value@.len() == self.representation.dim()
        &&& self.fej@.len() == self.representation.dim()
    }

    /// Whether everything but the two estimates and bearings is equal.
    pub open spec fn same_record(&self, other: &Landmark) -> bool {
        &&& self.featid == other.featid
        &&& self.id == other.id
        &&& self.unique_camera_id == other.unique_camera_id
        &&& self.anchor_cam_id == other.anchor_cam_id
        &&& self.anchor_clone_timestamp == other.anchor_clone_timestamp
        &&& self.has_had_anchor_change == other.has_had_anchor_change
        &&& self.should_marg == other.should_marg
        &&& self.update_fail_count == other.update_fail_count
        &&& self.representation == other.representation
    }

    /// What [`Landmark::get_xyz`] reads for the given estimate.
    pub open spec fn source(&self, fej: bool) -> PointSource
        recommends
            self.wf(),
    {
        let v = if fej {
            self.fej@
        } else {
            self.value@
        };
        match self.representation {
            FeatRepresentation::Global3D | FeatRepresentation::Anchored3D => PointSource::Xyz(
                [v[0], v[1], v[2]],
            ),
            FeatRepresentation::GlobalFullInverseDepth
            | FeatRepresentation::AnchoredFullInverseDepth => PointSource::FullInverseDepth(
                [v[0], v[1], v[2]],
            ),
            FeatRepresentation::AnchoredMsckfInverseDepth => PointSource::MsckfInverseDepth(
                [v[0], v[1], v[2]],
            ),
            FeatRepresentation::AnchoredInverseDepthSingle => PointSource::SingleInverseDepth(
                v[0],
                if fej {
                    self.uv_norm_zero_fej
                } else {
                    self.uv_norm_zero
                },
            ),
        }
    }

    /// A feature outside the covariance, without anchor, with zero estimates.
    pub fn new(representation: FeatRepresentation, featid: usize) -> (l: Landmark)
        ensures
            l.wf(),
            l.featid == featid,
            l.id == -1,
            l.unique_camera_id == -1,
            l.anchor_cam_id == -1,
            l.anchor_clone_timestamp == (Double { bits: crate::double::MINUS_ONE_BITS }),
            !l.has_had_anchor_change,
            !l.should_marg,
            l.update_fail_count == 0,
            l.representation == representation,
            forall|i: int| 0 <= i < representation.dim() ==> #[trigger] l.value@[i].bits == 0,
            forall|i: int| 0 <= i < representation.dim() ==> #[trigger] l.fej@[i].bits == 0,
            forall|i: int| 0 <= i < 3 ==> #[trigger] l.uv_norm_zero@[i].bits == 0,
            forall|i: int| 0 <= i < 3 ==> #[trigger] l.uv_norm_zero_fej@[i].bits == 0,
    {
        let zero = Double::zero();
        let (value, fej) = if representation == FeatRepresentation::AnchoredInverseDepthSingle {
            (vec![zero], vec![zero])
        } else {
            (vec![zero, zero, zero], vec![zero, zero, zero])
        };
        Landmark {
            featid,
            id: -1,
            unique_camera_id: -1,
            anchor_cam_id: -1,
            anchor_clone_timestamp: Double::minus_one(),
            has_had_anchor_change: false,
            should_marg: false,
            update_fail_count: 0,
            value,
            fej,
            uv_norm_zero: [zero, zero, zero],
            uv_norm_zero_fej: [zero, zero, zero],
            representation,
        }
    }

    /// The first row in the covariance.
    pub fn id(&self) -> (id: i32)
        ensures
            id == self.id,
    {
        self.id
    }

    /// Moves the feature to another row of the covariance.
    pub fn set_local_id(&mut self, id: i32)
        ensures
            *final(self) == (Landmark { id, ..*old(self) }),
    {
        self.id = id;
    }

    /// How many error states the feature has.
    pub fn size(&self) -> (size: usize)
        ensures
            size == self.value@.len(),
    {
        self.value.len()
    }

    /// Adds an increment to the estimate.
    pub fn update<P: Fn(Double, Double) -> Double>(&mut self, dx: &Vec<Double>, plus: &P)
        requires
            dx@.len() == old(self).value@.len(),
            binary(*plus),
        ensures
            *final(self) == (Landmark { value: final(self).value, ..*old(self) }),
            final(self).value@ == of_vectors(*plus, old(self).value@, dx@),
    {
        let n: usize = self.value.len();
        let mut i: usize = 0;
        while i < n
            invariant
                i <= n,
                n == old(self).value@.len(),
                dx@.len() == n,
                binary(*plus),
                *self == (Landmark { value: self.value, ..*old(self) }),
                self.value@.len() == n,
                forall|k: int|
                    0 <= k < n ==> #[trigger] self.value@[k] == (if k < i {
                        of_two(*plus, old(self).value@[k], dx@[k])
                    } else {
                        old(self).value@[k]
                    }),
            decreases n - i,
        {
            let v = apply_two(plus, self.value[i], dx[i]);
            self.value.set(i, v);
            i += 1;
        }
        assert(self.value@ =~= of_vectors(*plus, old(self).value@, dx@));
    }

    /// Sets the estimate, or the first estimate, to a point. With a single
    /// inverse depth the bearing is recorded beside it.
    pub fn set_from_xyz(&mut self, p: &PointForms, is_fej: bool)
        requires
            old(self).wf(),
        ensures
            final(self).wf(),
            final(self).same_record(old(self)),
            is_fej ==> final(self).fej@ == parameters(old(self).representation, *p),
            !is_fej ==> final(self).value@ == parameters(old(self).representation, *p),
            is_fej ==> final(self).value == old(self).value,
            !is_fej ==> final(self).fej == old(self).fej,
            final(self).uv_norm_zero == (if !is_fej
                && old(self).representation is AnchoredInverseDepthSingle {
                p.bearing
            } else {
                old(self).uv_norm_zero
            }),
            final(self).uv_norm_zero_fej == (if is_fej
                && old(self).representation is AnchoredInverseDepthSingle {
                p.bearing
            } else {
                old(self).uv_norm_zero_fej
            }),
    {
        if self.representation == FeatRepresentation::AnchoredInverseDepthSingle {
            if is_fej {
                self.uv_norm_zero_fej = p.bearing;
            } else {
                self.uv_norm_zero = p.bearing;
            }
        }
        let full = p.full_inverse_depth;
        let msckf = p.msckf_inverse_depth;
        let v: Vec<Double> = match self.representation {
            FeatRepresentation::Global3D | FeatRepresentation::Anchored3D => vec![
                p.xyz[0],
                p.xyz[1],
                p.xyz[2],
            ],
            FeatRepresentation::GlobalFullInverseDepth
            | FeatRepresentation::AnchoredFullInverseDepth => vec![full[0], full[1], full[2]],
            FeatRepresentation::AnchoredMsckfInverseDepth => vec![msckf[0], msckf[1], msckf[2]],
            FeatRepresentation::AnchoredInverseDepthSingle => vec![msckf[2]],
        };
        assert(v@ =~= parameters(self.representation, *p));
        if is_fej {
            self.fej = v;
        } else {
            self.value = v;
        }
    }

    /// The numbers from which the feature's coordinates are computed.
    pub fn get_xyz(&self, fej: bool) -> (s: PointSource)
        requires
            self.wf(),
        ensures
            s == self.source(fej),
    {
        let v = if fej {
            &self.fej
        } else {
            &self.value
        };
        match self.representation {
            FeatRepresentation::Global3D | FeatRepresentation::Anchored3D => PointSource::Xyz(
                [v[0], v[1], v[2]],
            ),
            FeatRepresentation::GlobalFullInverseDepth
            | FeatRepresentation::AnchoredFullInverseDepth => PointSource::FullInverseDepth(
                [v[0], v[1], v[2]],
            ),
            FeatRepresentation::AnchoredMsckfInverseDepth => PointSource::MsckfInverseDepth(
                [v[0], v[1], v[2]],
            ),
            FeatRepresentation::AnchoredInverseDepthSingle => PointSource::SingleInverseDepth(
                v[0],
                if fej {
                    self.uv_norm_zero_fej
                } else {
                    self.uv_norm_zero
                },
            ),
        }
    }
}

/// The numbers of a point from which its coordinates are computed.
pub open spec fn source_of(rep: FeatRepresentation, p: PointForms) -> PointSource {
    match rep {
        FeatRepresentation::Global3D | FeatRepresentation::Anchored3D => PointSource::Xyz(p.xyz),
        FeatRepresentation::GlobalFullInverseDepth
        | FeatRepresentation::AnchoredFullInverseDepth => PointSource::FullInverseDepth(
            p.full_inverse_depth,
        ),
        FeatRepresentation::AnchoredMsckfInverseDepth => PointSource::MsckfInverseDepth(
            p.msckf_inverse_depth,
        ),
        FeatRepresentation::AnchoredInverseDepthSingle => PointSource::SingleInverseDepth(
            p.msckf_inverse_depth@[2],
            p.bearing,
        ),
    }
}

/// What was set is read back: the estimate, or the first estimate, is that of the
/// point that it was set to.
pub proof fn law_reads_back_what_was_set(before: &Landmark, after: &Landmark, p: PointForms, fej: bool)
    requires
        before.wf(),
        after.wf(),
        after.same_record(before),
        fej ==> after.fej@ == parameters(before.representation, p),
        !fej ==> after.value@ == parameters(before.representation, p),
        before.representation is AnchoredInverseDepthSingle ==> (if fej {
            after.uv_norm_zero_fej
        } else {
            after.uv_norm_zero
        }) == p.bearing,
    ensures
        after.source(fej) == source_of(before.representation, p),
{
    let v = if fej {
        after.fej@
    } else {
        after.value@
    };
    match before.representation {
        FeatRepresentation::Global3D | FeatRepresentation::Anchored3D => {
            assert([v[0], v[1], v[2]] =~= p.xyz);
        },
        FeatRepresentation::GlobalFullInverseDepth
        | FeatRepresentation::AnchoredFullInverseDepth => {
            assert([v[0], v[1], v[2]] =~= p.full_inverse_depth);
        },
        FeatRepresentation::AnchoredMsckfInverseDepth => {
            assert([v[0], v[1], v[2]] =~= p.msckf_inverse_depth);
        },
        FeatRepresentation::AnchoredInverseDepthSingle => {},
    }
}

} // verus!
