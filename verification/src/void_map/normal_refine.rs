//! Refining the normal of a visual point against its patches.
//!
//! The normal is sought in two numbers, by descent on the photometric error. The
//! error, its slope and the way from the two numbers to a normal are the caller's
//! arithmetic; where the search starts, goes on, stops and gives up is here.

use vstd::prelude::*;

use crate::algebra::{ring, Ring};
use crate::arith::{
    apply_length, apply_one, apply_two, binary, length_of, lengths, of_one, unary,
};
use crate::double::Double;
use crate::void_map::plane::TINY;
use crate::void_map::visual_point::VisualPoint;
use crate::void_types::so3::{divide3, divided};

verus! {

/// Whether a plane's point is too near the camera's own plane.
pub open spec fn too_near(p_ref: Seq<Double>) -> bool {
    p_ref[2].spec_abs().spec_lt(Double { bits: TINY })
}

/// The vector of a plane whose first two entries are given: its product with the
/// plane's point is one.
pub open spec fn plane_vector<V: Fn(Double) -> Double>(
    m: Seq<Double>,
    p_ref: Seq<Double>,
    inverse: V,
    op: Ring,
) -> Seq<Double> {
    let inv = of_one(inverse, p_ref[2]);
    let by_x = (op.times)((op.times)(p_ref[0], inv), m[0]);
    let by_y = (op.times)((op.times)(p_ref[1], inv), m[1]);
    seq![m[0], m[1], (op.plus)((op.plus)(inv, by_x.spec_neg()), by_y.spec_neg())]
}

/// The vector of a plane through a point, from its first two entries; none if the
/// point is too near.
pub fn m_to_m<
    P: Fn(Double, Double) -> Double,
    T: Fn(Double, Double) -> Double,
    V: Fn(Double) -> Double,
>(m: &[Double; 2], p_ref: &[Double; 3], plus: &P, times: &T, inverse: &V) -> (v: Option<[Double; 3]>)
    requires
        binary(*plus),
        binary(*times),
        unary(*inverse),
    ensures
        v is None <==> too_near(p_ref@),
        v matches Some(w) ==> w@ == plane_vector(m@, p_ref@, *inverse, ring(*plus, *times)),
{
    if p_ref[2].abs().lt(Double { bits: TINY }) {
        return None;
    }
    let inv = apply_one(inverse, p_ref[2]);
    let by_x = apply_two(times, apply_two(times, p_ref[0], inv), m[0]);
    let by_y = apply_two(times, apply_two(times, p_ref[1], inv), m[1]);
    let z = apply_two(plus, apply_two(plus, inv, by_x.neg()), by_y.neg());
    let w = [m[0], m[1], z];
    assert(w@ =~= plane_vector(m@, p_ref@, *inverse, ring(*plus, *times)));
    Some(w)
}

/// The unit normal of a plane through a point, from the first two entries of its
/// vector; none if the point is too near or the vector too short.
pub fn m_to_normal<
    L: Fn([Double; 3]) -> Double,
    P: Fn(Double, Double) -> Double,
    T: Fn(Double, Double) -> Double,
    V: Fn(Double) -> Double,
    D: Fn(Double, Double) -> Double,
>(
    m: &[Double; 2],
    p_ref: &[Double; 3],
    length: &L,
    plus: &P,
    times: &T,
    inverse: &V,
    divide: &D,
) -> (n: Option<[Double; 3]>)
    requires
        lengths(*length),
        binary(*plus),
        binary(*times),
        unary(*inverse),
        binary(*divide),
    ensures
        ({
            let v = plane_vector(m@, p_ref@, *inverse, ring(*plus, *times));
            let l = length_of(*length, v);
            &&& n is None <==> too_near(p_ref@) || l.spec_lt(Double { bits: TINY })
            &&& n matches Some(w) ==> w@ == divided(v, l, *divide)
        }),
{
    let v = match m_to_m(m, p_ref, plus, times, inverse) {
        Some(v) => v,
        None => {
            return None;
        },
    };
    let l = apply_length(length, v);
    if l.lt(Double { bits: TINY }) {
        return None;
    }
    Some(divide3(&v, l, divide))
}

/// The size of the slope below which the search has arrived: 1e-6.
pub const FLAT_SLOPE: u64 = 0x3EB0_C6F7_A0B5_ED8D;

/// How a point lies to its reference patch.
#[derive(Clone, Copy, Debug)]
pub struct RefinePose {
    /// The size of the depth in front of the reference camera.
    pub abs_depth: Double,
    /// The size of the product of the normal and the point, in that camera.
    pub abs_dot: Double,
    /// The two numbers of the normal as it stands.
    pub m: [Double; 2],
}

/// One look at the error around two numbers.
#[derive(Clone, Copy, Debug)]
pub struct RefineStep {
    /// The size of the slope.
    pub slope: Double,
    /// The two numbers after a step down.
    pub next: [Double; 2],
}

/// Whether points can be posed, always in the same way.
pub open spec fn poses<P: Fn(usize) -> RefinePose>(pose: P) -> bool {
    &&& forall|i: usize| #[trigger] call_requires(pose, (i,))
    &&& forall|i: usize, a: RefinePose, b: RefinePose| #[trigger]
        call_ensures(pose, (i,), a) && #[trigger] call_ensures(pose, (i,), b) ==> a == b
}

/// How the point lies to reference patch `i`.
pub open spec fn posed<P: Fn(usize) -> RefinePose>(pose: P, i: usize) -> RefinePose {
    choose|r: RefinePose| call_ensures(pose, (i,), r)
}

/// Whether the error can be looked at, always in the same way.
pub open spec fn descends<S: Fn([Double; 2]) -> Option<RefineStep>>(step: S) -> bool {
    &&& forall|m: [Double; 2]| #[trigger] call_requires(step, (m,))
    &&& forall|m: [Double; 2], a: Option<RefineStep>, b: Option<RefineStep>| #[trigger]
        call_ensures(step, (m,), a) && #[trigger] call_ensures(step, (m,), b) ==> a == b
}

/// The look at the error around two numbers; none where one beside them has no normal.
pub open spec fn step_at<S: Fn([Double; 2]) -> Option<RefineStep>>(step: S, m: [Double; 2]) -> Option<
    RefineStep,
> {
    choose|r: Option<RefineStep>| call_ensures(step, (m,), r)
}

/// Whether normals can be told from two numbers, always in the same way.
pub open spec fn names_normals<N: Fn([Double; 2]) -> Option<[Double; 3]>>(normal: N) -> bool {
    &&& forall|m: [Double; 2]| #[trigger] call_requires(normal, (m,))
    &&& forall|m: [Double; 2], a: Option<[Double; 3]>, b: Option<[Double; 3]>| #[trigger]
        call_ensures(normal, (m,), a) && #[trigger] call_ensures(normal, (m,), b) ==> a == b
}

/// The normal of two numbers, if they have one.
pub open spec fn normal_at<N: Fn([Double; 2]) -> Option<[Double; 3]>>(
    normal: N,
    m: [Double; 2],
) -> Option<[Double; 3]> {
    choose|r: Option<[Double; 3]>| call_ensures(normal, (m,), r)
}

/// Whether both numbers are finite.
pub open spec fn both_finite(m: [Double; 2]) -> bool {
    m@[0].spec_is_finite() && m@[1].spec_is_finite()
}

/// The two numbers at which a search of at most `n` steps from `m` ends. There are
/// none where it meets numbers without a normal, or leaves the finite ones.
pub open spec fn searched<
    S: Fn([Double; 2]) -> Option<RefineStep>,
    N: Fn([Double; 2]) -> Option<[Double; 3]>,
>(step: S, normal: N, m: [Double; 2], n: int) -> Option<[Double; 2]>
    decreases n,
{
    if n <= 0 {
        Some(m)
    } else {
        match (normal_at(normal, m), step_at(step, m)) {
            (Some(_), Some(s)) => if s.slope.spec_lt(Double { bits: FLAT_SLOPE }) {
                Some(m)
            } else if both_finite(s.next) {
                searched(step, normal, s.next, n - 1)
            } else {
                None
            },
            _ => None,
        }
    }
}

/// Where the search starts: at the normal as it stands, or at zero.
pub open spec fn search_start(m: [Double; 2]) -> Seq<Double> {
    if both_finite(m) {
        m@
    } else {
        seq![Double { bits: 0 }, Double { bits: 0 }]
    }
}

/// Whether there is something to refine: a reference patch, another patch, and a
/// point that lies off the plane through the reference camera.
pub open spec fn refinable<P: Fn(usize) -> RefinePose>(pt: &VisualPoint, pose: P) -> bool {
    let tiny = Double { bits: TINY };
    match pt.ref_patch {
        Some(i) => pt.obs@.len() > 1 && !posed(pose, i).abs_depth.spec_lt(tiny) && !posed(
            pose,
            i,
        ).abs_dot.spec_lt(tiny),
        None => false,
    }
}

/// Whether both numbers are finite.
fn finite(m: &[Double; 2]) -> (yes: bool)
    ensures
        yes == both_finite(*m),
{
    m[0].is_finite() && m[1].is_finite()
}

/// The refined normal of a point, in at most `max_iterations` steps, if the point
/// can be refined and the search does not fail.
pub fn refine_normal<
    P: Fn(usize) -> RefinePose,
    S: Fn([Double; 2]) -> Option<RefineStep>,
    N: Fn([Double; 2]) -> Option<[Double; 3]>,
>(pt: &VisualPoint, max_iterations: usize, pose: &P, step: &S, normal: &N) -> (refined: Option<
    [Double; 3],
>)
    requires
        pt.ref_patch matches Some(i) ==> i < pt.obs.len(),
        poses(*pose),
        descends(*step),
        names_normals(*normal),
    ensures
        !refinable(pt, *pose) ==> refined is None,
        refinable(pt, *pose) ==> exists|m: [Double; 2]|
            m@ == search_start(posed(*pose, pt.ref_patch->0).m) && refined == (match #[trigger] searched(
                *step,
                *normal,
                m,
                max_iterations as int,
            ) {
                Some(end) => normal_at(*normal, end),
                None => None,
            }),
{
    let i: usize = match pt.ref_patch {
        Some(i) => i,
        None => {
            return None;
        },
    };
    let tiny = Double { bits: TINY };
    let start = pose(i);
    assert(call_ensures(*pose, (i,), start));
    assert(call_ensures(*pose, (i,), posed(*pose, i)));
    if start.abs_depth.lt(tiny) || pt.obs.len() <= 1 || start.abs_dot.lt(tiny) {
        return None;
    }
    let mut m: [Double; 2] = start.m;
    if !finite(&m) {
        m = [Double::zero(), Double::zero()];
        assert(m@ =~= seq![Double { bits: 0 }, Double { bits: 0 }]);
    }
    let ghost first = m;
    let ghost whole = searched(*step, *normal, first, max_iterations as int);
    let mut done: usize = 0;
    let mut arrived = false;
    while done < max_iterations && !arrived
        invariant
            done <= max_iterations,
            descends(*step),
            names_normals(*normal),
            first@ == search_start(posed(*pose, pt.ref_patch->0).m),
            refinable(pt, *pose),
            whole == searched(*step, *normal, first, max_iterations as int),
            arrived ==> whole == Some(m),
            !arrived ==> whole == searched(*step, *normal, m, max_iterations - done),
        decreases max_iterations - done + (if arrived { 0int } else { 1int }),
    {
        let here = normal(m);
        assert(call_ensures(*normal, (m,), here));
        assert(call_ensures(*normal, (m,), normal_at(*normal, m)));
        if here.is_none() {
            return None;
        }
        let look = step(m);
        assert(call_ensures(*step, (m,), look));
        assert(call_ensures(*step, (m,), step_at(*step, m)));
        match look {
            None => {
                return None;
            },
            Some(s) => {
                if s.slope.lt(Double { bits: FLAT_SLOPE }) {
                    arrived = true;
                } else {
                    if !finite(&s.next) {
                        return None;
                    }
                    m = s.next;
                    done += 1;
                }
            },
        }
    }
    let end = normal(m);
    assert(call_ensures(*normal, (m,), end));
    assert(call_ensures(*normal, (m,), normal_at(*normal, m)));
    end
}

/// A search that has arrived stays there, however many steps are left.
pub proof fn law_flat_ground_ends_the_search<
    S: Fn([Double; 2]) -> Option<RefineStep>,
    N: Fn([Double; 2]) -> Option<[Double; 3]>,
>(step: S, normal: N, m: [Double; 2], n: int)
    requires
        normal_at(normal, m) is Some,
        step_at(step, m) matches Some(s) && s.slope.spec_lt(Double { bits: FLAT_SLOPE }),
    ensures
        searched(step, normal, m, n) == Some(m),
{
}

} // verus!
