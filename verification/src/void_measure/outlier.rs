//! Outlier gates shared by the measurement models.

use vstd::prelude::*;

use crate::arith::{apply_one, apply_two, binary, of_one, of_two, unary};
use crate::double::{Double, ONE_BITS};

verus! {

/// The verdict of a gate.
#[derive(Clone, Copy, Debug, PartialEq, Eq, Structural)]
pub enum GateVerdict {
    /// The measurement is used.
    Inlier,
    /// The measurement is dropped.
    Outlier,
}

/// The verdict on a residual: an inlier unless its variance `r` is positive (or
/// not a number) and its size `abs_z` is not within `bound`, the allowed number
/// of standard deviations.
pub open spec fn gate(abs_z: Double, r: Double, bound: Double) -> GateVerdict {
    if r.spec_le(Double { bits: 0 }) || abs_z.spec_le(bound) {
        GateVerdict::Inlier
    } else {
        GateVerdict::Outlier
    }
}

/// Judges a residual of size `abs_z` and variance `r` against `bound`.
pub fn judge_size(abs_z: Double, r: Double, bound: Double) -> (v: GateVerdict)
    ensures
        v == gate(abs_z, r, bound),
{
    if r.le(Double::zero()) || abs_z.le(bound) {
        GateVerdict::Inlier
    } else {
        GateVerdict::Outlier
    }
}

/// Judges a residual `z` of variance `r`: it may be as large as `sigma_num`
/// standard deviations.
pub fn chi2_gate<T: Fn(Double, Double) -> Double, R: Fn(Double) -> Double>(
    z: Double,
    r: Double,
    sigma_num: Double,
    times: &T,
    root: &R,
) -> (v: GateVerdict)
    requires
        binary(*times),
        unary(*root),
    ensures
        v == gate(z.spec_abs(), r, of_two(*times, sigma_num, of_one(*root, r))),
{
    let bound = apply_two(times, sigma_num, apply_one(root, r));
    judge_size(z.abs(), r, bound)
}

/// The weight of a residual under a threshold: one where the threshold is not
/// finite or holds the residual, else the threshold over the residual's size.
pub fn huber_weight<V: Fn(Double, Double) -> Double>(r: Double, delta: Double, divide: &V) -> (w:
    Double)
    requires
        binary(*divide),
    ensures
        w == (if !delta.spec_is_finite() || r.spec_abs().spec_le(delta) {
            Double { bits: ONE_BITS }
        } else {
            of_two(*divide, delta, r.spec_abs())
        }),
{
    if !delta.is_finite() {
        return Double::one();
    }
    let size = r.abs();
    if size.le(delta) {
        Double::one()
    } else {
        apply_two(divide, delta, size)
    }
}

} // verus!
