//! A feature's point as its new anchor sees it, and what that makes of the feature.

use vstd::prelude::*;

use crate::algebra::{
    apply_inverse, col_of, dot, dot_lists, entries, flipped, inverse_of, inverts, is,
    lemma_dot_same, lemma_product, list_of, multiply, nothing, product, ring, same_result,
    square_of, three_by_three, Ring,
};
use crate::arith::{apply_length, apply_one, apply_two, binary, of_one, of_two};
use crate::double::{Double, ONE_BITS};
use crate::matrix::Matrix;
use crate::vio::anchor::{anchor_changed, change_anchor, AnchorDerivatives};
use crate::vio::estimates::Estimates;
use crate::vio::jacobian::{
    by_world, carried, carry, get_feature_jacobian_representation, is_representation, Angles,
    PoseValue, ReprJacobian,
};
use crate::vio::landmark::{Landmark, PointForms, PointSource};
use crate::vio::options::FeatRepresentation;
use crate::vio::state::State;
use crate::vio::updater_helper::{clone_at, clone_exists, find_clone};
use crate::vio::updater_slam::anchor_blocks;
use crate::void_map::plane::TINY;
use crate::void_types::motion::{difference3, minus3, plus3, scaled3, sum3, times3};

verus! {

/// The coordinates of a point, from the numbers that it is written down with.
pub open spec fn coordinates<
    L: Fn([Double; 3]) -> Double,
    A: Fn(Double, Double) -> Double,
    C: Fn(Double) -> Double,
    S: Fn(Double) -> Double,
    K: Fn(Double) -> Double,
    V: Fn(Double, Double) -> Double,
>(source: PointSource, angles: Angles<L, A, C, S, K>, divide: V, op: Ring) -> Seq<Double> {
    let one = Double { bits: ONE_BITS };
    match source {
        PointSource::Xyz(v) => v@,
        PointSource::FullInverseDepth(v) => {
            let range = of_two(divide, one, v@[2]);
            let across = of_one(angles.sin, v@[1]);
            seq![
                (op.times)((op.times)(range, of_one(angles.cos, v@[0])), across),
                (op.times)((op.times)(range, of_one(angles.sin, v@[0])), across),
                (op.times)(range, of_one(angles.cos, v@[1])),
            ]
        },
        PointSource::MsckfInverseDepth(v) => seq![
            of_two(divide, v@[0], v@[2]),
            of_two(divide, v@[1], v@[2]),
            of_two(divide, one, v@[2]),
        ],
        PointSource::SingleInverseDepth(rho, bearing) => scaled3(
            bearing@,
            of_two(divide, one, rho),
            op,
        ),
    }
}

/// The coordinates of a point.
pub fn coordinates_of<
    L: Fn([Double; 3]) -> Double,
    A: Fn(Double, Double) -> Double,
    C: Fn(Double) -> Double,
    S: Fn(Double) -> Double,
    K: Fn(Double) -> Double,
    P: Fn(Double, Double) -> Double,
    T: Fn(Double, Double) -> Double,
    V: Fn(Double, Double) -> Double,
>(
    source: &PointSource,
    angles: &Angles<L, A, C, S, K>,
    plus: &P,
    times: &T,
    divide: &V,
) -> (p: [Double; 3])
    requires
        angles.wf(),
        binary(*plus),
        binary(*times),
        binary(*divide),
    ensures
        p@ == coordinates(*source, *angles, *divide, ring(*plus, *times)),
{
    let ghost op = ring(*plus, *times);
    let one = Double::one();
    match source {
        PointSource::Xyz(v) => *v,
        PointSource::FullInverseDepth(v) => {
            let range = apply_two(divide, one, v[2]);
            let across = apply_one(&angles.sin, v[1]);
            let p = [
                apply_two(times, apply_two(times, range, apply_one(&angles.cos, v[0])), across),
                apply_two(times, apply_two(times, range, apply_one(&angles.sin, v[0])), across),
                apply_two(times, range, apply_one(&angles.cos, v[1])),
            ];
            assert(p@ =~= coordinates(*source, *angles, *divide, op));
            p
        },
        PointSource::MsckfInverseDepth(v) => {
            let p = [
                apply_two(divide, v[0], v[2]),
                apply_two(divide, v[1], v[2]),
                apply_two(divide, one, v[2]),
            ];
            assert(p@ =~= coordinates(*source, *angles, *divide, op));
            p
        },
        PointSource::SingleInverseDepth(rho, bearing) => {
            let range = apply_two(divide, one, *rho);
            times3(bearing, range, plus, times)
        },
    }
}

/// Whether a point is written down in every way.
pub open spec fn is_written<
    L: Fn([Double; 3]) -> Double,
    A: Fn(Double, Double) -> Double,
    C: Fn(Double) -> Double,
    S: Fn(Double) -> Double,
    K: Fn(Double) -> Double,
    V: Fn(Double, Double) -> Double,
>(
    forms: PointForms,
    p: Seq<Double>,
    angles: Angles<L, A, C, S, K>,
    divide: V,
    op: Ring,
) -> bool {
    let rho = of_two(divide, Double { bits: ONE_BITS }, p[2]);
    &&& forms.xyz@ == p
    &&& forms.bearing@ == scaled3(p, rho, op)
    &&& forms.full_inverse_depth@ == seq![
        angles.theta(p),
        angles.phi(p, divide, op),
        angles.inverse_range(p, divide),
    ]
    &&& forms.msckf_inverse_depth@ == seq![
        of_two(divide, p[0], p[2]),
        of_two(divide, p[1], p[2]),
        rho,
    ]
}

/// Writes a point down in every way.
pub fn write_point<
    L: Fn([Double; 3]) -> Double,
    A: Fn(Double, Double) -> Double,
    C: Fn(Double) -> Double,
    S: Fn(Double) -> Double,
    K: Fn(Double) -> Double,
    P: Fn(Double, Double) -> Double,
    T: Fn(Double, Double) -> Double,
    V: Fn(Double, Double) -> Double,
>(
    p: &[Double; 3],
    angles: &Angles<L, A, C, S, K>,
    plus: &P,
    times: &T,
    divide: &V,
) -> (forms: PointForms)
    requires
        angles.wf(),
        binary(*plus),
        binary(*times),
        binary(*divide),
    ensures
        is_written(forms, p@, *angles, *divide, ring(*plus, *times)),
{
    let one = Double::one();
    let depth = apply_two(divide, one, p[2]);
    let rho = apply_two(divide, one, apply_length(&angles.length, *p));
    let phi = apply_one(&angles.acos, apply_two(times, rho, p[2]));
    let forms = PointForms {
        xyz: *p,
        bearing: times3(p, depth, plus, times),
        full_inverse_depth: [apply_two(&angles.atan2, p[1], p[0]), phi, rho],
        msckf_inverse_depth: [
            apply_two(divide, p[0], p[2]),
            apply_two(divide, p[1], p[2]),
            depth,
        ],
    };
    assert(forms.full_inverse_depth@ =~= seq![
        angles.theta(p@),
        angles.phi(p@, *divide, ring(*plus, *times)),
        angles.inverse_range(p@, *divide),
    ]);
    assert(forms.msckf_inverse_depth@ =~= seq![
        of_two(*divide, p@[0], p@[2]),
        of_two(*divide, p@[1], p@[2]),
        of_two(*divide, one, p@[2]),
    ]);
    forms
}

/// Where a camera is, for the pose of its body.
pub open spec fn camera_center(calib: PoseValue, pose: PoseValue, op: Ring) -> Seq<Double> {
    difference3(pose.pos@, carried(flipped(by_world(calib, pose, op)), calib.pos@, op), op)
}

/// A point of one camera as another sees it.
pub open spec fn as_seen_by(
    p: Seq<Double>,
    calib_old: PoseValue,
    old: PoseValue,
    calib_new: PoseValue,
    new: PoseValue,
    op: Ring,
) -> Seq<Double> {
    let r_old = by_world(calib_old, old, op);
    let r_new = by_world(calib_new, new, op);
    let apart = difference3(
        camera_center(calib_old, old, op),
        camera_center(calib_new, new, op),
        op,
    );
    sum3(
        carried(product(r_new, flipped(r_old), op, 3), p, op),
        carried(r_new, apart, op),
        op,
    )
}

/// Where a camera is and how it is turned, for the pose of its body.
fn camera_at<P: Fn(Double, Double) -> Double, T: Fn(Double, Double) -> Double>(
    calib: &PoseValue,
    pose: &PoseValue,
    plus: &P,
    times: &T,
) -> (camera: (Matrix, [Double; 3]))
    requires
        binary(*plus),
        binary(*times),
    ensures
        is(&camera.0, 3, 3, by_world(*calib, *pose, ring(*plus, *times))),
        camera.1@ == camera_center(*calib, *pose, ring(*plus, *times)),
{
    let ghost op = ring(*plus, *times);
    let ghost f = by_world(*calib, *pose, op);
    let a = square_of(&calib.rot);
    let b = square_of(&pose.rot);
    let m = multiply(&a, &b, plus, times);
    proof {
        lemma_product(&m, &a, &b, three_by_three(calib.rot@), three_by_three(pose.rot@), op);
    }
    let back = m.transpose();
    assert(is(&back, 3, 3, flipped(f)));
    let off = carry(&back, &calib.pos, Ghost(flipped(f)), plus, times);
    let center = minus3(&pose.pos, &off, plus, times);
    (m, center)
}

/// The pose of a camera, for the pose of its body.
pub fn camera_pose<P: Fn(Double, Double) -> Double, T: Fn(Double, Double) -> Double>(
    calib: &PoseValue,
    pose: &PoseValue,
    plus: &P,
    times: &T,
) -> (camera: PoseValue)
    requires
        binary(*plus),
        binary(*times),
    ensures
        camera.rot@ == Seq::new(
            9,
            |k: int| by_world(*calib, *pose, ring(*plus, *times))(k / 3, k % 3),
        ),
        camera.pos@ == camera_center(*calib, *pose, ring(*plus, *times)),
{
    let ghost f = by_world(*calib, *pose, ring(*plus, *times));
    let (m, pos) = camera_at(calib, pose, plus, times);
    let rot = [
        m.get(0, 0),
        m.get(0, 1),
        m.get(0, 2),
        m.get(1, 0),
        m.get(1, 1),
        m.get(1, 2),
        m.get(2, 0),
        m.get(2, 1),
        m.get(2, 2),
    ];
    assert(rot@ =~= Seq::new(9, |k: int| f(k / 3, k % 3)));
    PoseValue { rot, pos }
}

/// A point of one camera as another sees it.
pub fn see_from<P: Fn(Double, Double) -> Double, T: Fn(Double, Double) -> Double>(
    p: &[Double; 3],
    calib_old: &PoseValue,
    old: &PoseValue,
    calib_new: &PoseValue,
    new: &PoseValue,
    plus: &P,
    times: &T,
) -> (q: [Double; 3])
    requires
        binary(*plus),
        binary(*times),
    ensures
        q@ == as_seen_by(p@, *calib_old, *old, *calib_new, *new, ring(*plus, *times)),
{
    let ghost op = ring(*plus, *times);
    let ghost to_old = by_world(*calib_old, *old, op);
    let ghost to_new = by_world(*calib_new, *new, op);
    let (r_old, c_old) = camera_at(calib_old, old, plus, times);
    let (r_new, c_new) = camera_at(calib_new, new, plus, times);
    let back = r_old.transpose();
    assert(is(&back, 3, 3, flipped(to_old)));
    let turn = multiply(&r_new, &back, plus, times);
    proof {
        lemma_product(&turn, &r_new, &back, to_new, flipped(to_old), op);
    }
    let turned = carry(&turn, p, Ghost(product(to_new, flipped(to_old), op, 3)), plus, times);
    let apart = minus3(&c_old, &c_new, plus, times);
    let shift = carry(&r_new, &apart, Ghost(to_new), plus, times);
    plus3(&turned, &shift, plus, times)
}

/// Whether a matrix solves for the numbers of a feature: the inverse of the
/// derivative; of a single column the transpose over the square of its length, or
/// nothing where that is tiny.
pub open spec fn solves<I: Fn(&Matrix) -> Option<Matrix>, V: Fn(Double, Double) -> Double>(
    inv: &Option<Matrix>,
    h_f: &Matrix,
    rep: FeatRepresentation,
    invert: I,
    divide: V,
    op: Ring,
) -> bool {
    if rep is AnchoredInverseDepthSingle {
        let h = entries(h_f);
        let n = dot(col_of(h, 0), col_of(h, 0), op, 3);
        inv matches Some(m) && is(
            &m,
            1,
            3,
            if (Double { bits: TINY }).spec_lt(n) {
                |i: int, j: int| of_two(divide, h(j, 0), n)
            } else {
                nothing()
            },
        )
    } else {
        same_result(*inv, inverse_of(invert, 3, entries(h_f)))
    }
}

/// Solves for the numbers of a feature.
fn solve_feature<
    I: Fn(&Matrix) -> Option<Matrix>,
    P: Fn(Double, Double) -> Double,
    T: Fn(Double, Double) -> Double,
    V: Fn(Double, Double) -> Double,
>(
    h_f: &Matrix,
    rep: FeatRepresentation,
    invert: &I,
    plus: &P,
    times: &T,
    divide: &V,
) -> (inv: Option<Matrix>)
    requires
        h_f.shaped(3, rep.dim()),
        inverts(*invert),
        binary(*plus),
        binary(*times),
        binary(*divide),
    ensures
        solves(&inv, h_f, rep, *invert, *divide, ring(*plus, *times)),
        inv matches Some(m) ==> m.shaped(rep.dim(), 3),
{
    let ghost op = ring(*plus, *times);
    if rep == FeatRepresentation::AnchoredInverseDepthSingle {
        let v: Vec<Double> = vec![h_f.get(0, 0), h_f.get(1, 0), h_f.get(2, 0)];
        let n = dot_lists(&v, &v, plus, times);
        proof {
            let c = col_of(entries(h_f), 0);
            lemma_dot_same(list_of(v@), list_of(v@), c, c, op, 3);
        }
        let mut m = Matrix::filled(1, 3, Double::zero());
        if (Double { bits: TINY }).lt(n) {
            m.set(0, 0, apply_two(divide, v[0], n));
            m.set(0, 1, apply_two(divide, v[1], n));
            m.set(0, 2, apply_two(divide, v[2], n));
        }
        Some(m)
    } else {
        apply_inverse(h_f, invert, Ghost(entries(h_f)))
    }
}

/// Whether the derivatives of an anchor change are those of a feature under its old
/// and its new anchor.
pub open spec fn derived<
    I: Fn(&Matrix) -> Option<Matrix>,
    L: Fn([Double; 3]) -> Double,
    A: Fn(Double, Double) -> Double,
    C: Fn(Double) -> Double,
    S: Fn(Double) -> Double,
    K: Fn(Double) -> Double,
    V: Fn(Double, Double) -> Double,
>(
    h_f_old: &Matrix,
    h_x_old: Seq<Matrix>,
    h_f_new: &Matrix,
    h_x_new: Seq<Matrix>,
    inv: &Option<Matrix>,
    st: &State,
    l: &Landmark,
    cam: int,
    t: Double,
    values: &Estimates,
    p: Seq<Double>,
    q: Seq<Double>,
    invert: I,
    angles: Angles<L, A, C, S, K>,
    divide: V,
    op: Ring,
) -> bool {
    &&& of_anchor(
        h_f_old,
        h_x_old,
        st,
        l.anchor_cam_id as int,
        l.anchor_clone_timestamp,
        l.representation,
        values,
        p,
        angles,
        divide,
        op,
    )
    &&& of_anchor(
        h_f_new,
        h_x_new,
        st,
        cam,
        t,
        l.representation,
        values,
        q,
        angles,
        divide,
        op,
    )
    &&& solves(inv, h_f_new, l.representation, invert, divide, op)
}

/// Whether a derivative by a feature, and those by its anchor's variables, are those
/// under the given anchor.
pub open spec fn of_anchor<
    L: Fn([Double; 3]) -> Double,
    A: Fn(Double, Double) -> Double,
    C: Fn(Double) -> Double,
    S: Fn(Double) -> Double,
    K: Fn(Double) -> Double,
    V: Fn(Double, Double) -> Double,
>(
    h_f: &Matrix,
    h_x: Seq<Matrix>,
    st: &State,
    cam: int,
    t: Double,
    rep: FeatRepresentation,
    values: &Estimates,
    p: Seq<Double>,
    angles: Angles<L, A, C, S, K>,
    divide: V,
    op: Ring,
) -> bool {
    exists|repr: ReprJacobian|
        {
            &&& #[trigger] is_representation(&repr, st, cam, t, rep, values, p, angles, divide, op)
            &&& repr.0 == *h_f
            &&& h_x == Seq::new(repr.1@.len(), |i: int| repr.1@[i].2)
        }
}

/// Why a feature could not be anchored anew.
#[derive(Clone, Copy, Debug)]
pub enum AnchorFault {
    /// The derivative by the feature under the new anchor has no inverse.
    Singular,
    /// A diagonal entry of the covariance is not at least zero.
    Negative(usize),
}

/// Takes the matrices out of the blocks.
fn only_blocks(blocks: Vec<(i32, usize, Matrix)>) -> (out: Vec<Matrix>)
    ensures
        out@ == Seq::new(blocks@.len(), |i: int| blocks@[i].2),
{
    let mut rest = blocks;
    let ghost all = blocks@;
    let mut reversed: Vec<Matrix> = Vec::new();
    let mut out: Vec<Matrix> = Vec::new();
    while rest.len() > 0
        invariant
            rest@.len() + reversed@.len() == all.len(),
            rest@ == all.take(rest@.len() as int),
            forall|i: int|
                0 <= i < reversed@.len() ==> #[trigger] reversed@[i] == all[all.len() - 1 - i].2,
        decreases rest@.len(),
    {
        let ghost before = rest@;
        if let Some(block) = rest.pop() {
            proof {
                assert(block == before[before.len() - 1]);
                assert(block == all[before.len() - 1]);
                assert(rest@ =~= all.take(rest@.len() as int));
            }
            reversed.push(block.2);
        }
    }
    while reversed.len() > 0
        invariant
            out@.len() + reversed@.len() == all.len(),
            forall|i: int|
                0 <= i < reversed@.len() ==> #[trigger] reversed@[i] == all[all.len() - 1 - i].2,
            forall|i: int| 0 <= i < out@.len() ==> #[trigger] out@[i] == all[i].2,
        decreases reversed@.len(),
    {
        if let Some(m) = reversed.pop() {
            out.push(m);
        }
    }
    assert(out@ =~= Seq::new(blocks@.len(), |i: int| blocks@[i].2));
    out
}

/// The point and first point of a feature as its new anchor sees them.
pub open spec fn seen_anew<
    L: Fn([Double; 3]) -> Double,
    A: Fn(Double, Double) -> Double,
    C: Fn(Double) -> Double,
    S: Fn(Double) -> Double,
    K: Fn(Double) -> Double,
    V: Fn(Double, Double) -> Double,
>(
    st: &State,
    l: &Landmark,
    cam: int,
    t: Double,
    values: &Estimates,
    fej: bool,
    angles: Angles<L, A, C, S, K>,
    divide: V,
    op: Ring,
) -> Seq<Double> {
    let old = values.clones@[clone_at(st.clones_imu@, l.anchor_clone_timestamp, 0)];
    let new = values.clones@[clone_at(st.clones_imu@, t, 0)];
    as_seen_by(
        coordinates(l.source(fej), angles, divide, op),
        values.calibs@[l.anchor_cam_id as int],
        if fej {
            old.1
        } else {
            old.0
        },
        values.calibs@[cam],
        if fej {
            new.1
        } else {
            new.0
        },
        op,
    )
}

/// Whether a state became another by anchoring a feature anew, with the
/// derivatives, the point and the first point that follow from the poses.
pub open spec fn anchored_anew<
    I: Fn(&Matrix) -> Option<Matrix>,
    L: Fn([Double; 3]) -> Double,
    A: Fn(Double, Double) -> Double,
    C: Fn(Double) -> Double,
    S: Fn(Double) -> Double,
    K: Fn(Double) -> Double,
    V: Fn(Double, Double) -> Double,
>(
    before: &State,
    after: &State,
    place: int,
    t: Double,
    cam: int,
    values: &Estimates,
    h_f_old: &Matrix,
    h_x_old: Seq<Matrix>,
    h_f_new: &Matrix,
    h_x_new: Seq<Matrix>,
    inv: &Option<Matrix>,
    res: Result<(), AnchorFault>,
    invert: I,
    angles: Angles<L, A, C, S, K>,
    divide: V,
    op: Ring,
) -> bool {
    let l = before.features_slam@[place];
    &&& derived(
        h_f_old,
        h_x_old,
        h_f_new,
        h_x_new,
        inv,
        before,
        &l,
        cam,
        t,
        values,
        coordinates(l.source(false), angles, divide, op),
        seen_anew(before, &l, cam, t, values, false, angles, divide, op),
        invert,
        angles,
        divide,
        op,
    )
    &&& match inv {
        None => res is Err && res->Err_0 is Singular && *after == *before,
        Some(h_f_new_inv) => {
            &&& !(res is Err && res->Err_0 is Singular)
            &&& exists|d: AnchorDerivatives, point: PointForms, first: PointForms, done: Result<(), usize>|
                {
                    &&& #[trigger]
                    anchor_changed(before, after, place, t, cam, &d, point, first, op, done)
                    &&& d.h_f_old == *h_f_old
                    &&& d.h_x_old@ == h_x_old
                    &&& d.h_f_new_inv == h_f_new_inv
                    &&& d.h_x_new@ == h_x_new
                    &&& is_written(
                        point,
                        seen_anew(before, &l, cam, t, values, false, angles, divide, op),
                        angles,
                        divide,
                        op,
                    )
                    &&& is_written(
                        first,
                        seen_anew(before, &l, cam, t, values, true, angles, divide, op),
                        angles,
                        divide,
                        op,
                    )
                    &&& res == (match done {
                        Ok(_) => Ok::<(), AnchorFault>(()),
                        Err(k) => Err::<(), AnchorFault>(AnchorFault::Negative(k)),
                    })
                }
        },
    }
}

/// Anchors the state's feature at `place` anew, to the clone at
/// `new_anchor_timestamp` and camera `new_cam_id`: its covariance follows from
/// those of both anchors and its own, and its point and first point become those
/// that the new anchor sees.
pub fn perform_anchor_change<
    I: Fn(&Matrix) -> Option<Matrix>,
    L: Fn([Double; 3]) -> Double,
    A: Fn(Double, Double) -> Double,
    C: Fn(Double) -> Double,
    S: Fn(Double) -> Double,
    K: Fn(Double) -> Double,
    P: Fn(Double, Double) -> Double,
    T: Fn(Double, Double) -> Double,
    V: Fn(Double, Double) -> Double,
>(
    state: &mut State,
    place: usize,
    new_anchor_timestamp: Double,
    new_cam_id: usize,
    values: &Estimates,
    invert: &I,
    angles: &Angles<L, A, C, S, K>,
    plus: &P,
    times: &T,
    divide: &V,
) -> (res: Result<(), AnchorFault>)
    requires
        old(state).wf(),
        place < old(state).features_slam@.len(),
        old(state).features_slam@[place as int].representation.spec_is_relative(),
        0 <= old(state).features_slam@[place as int].anchor_cam_id < old(
            state,
        ).calib_imu_to_cam@.len(),
        clone_exists(old(state), old(state).features_slam@[place as int].anchor_clone_timestamp),
        new_cam_id < old(state).calib_imu_to_cam@.len(),
        new_cam_id <= i32::MAX,
        clone_exists(old(state), new_anchor_timestamp),
        values.fits(old(state)),
        inverts(*invert),
        angles.wf(),
        binary(*plus),
        binary(*times),
        binary(*divide),
    ensures
        exists|
            h_f_old: Matrix,
            h_x_old: Seq<Matrix>,
            h_f_new: Matrix,
            h_x_new: Seq<Matrix>,
            inv: Option<Matrix>,
        | #[trigger]
            anchored_anew(
                old(state),
                final(state),
                place as int,
                new_anchor_timestamp,
                new_cam_id as int,
                values,
                &h_f_old,
                h_x_old,
                &h_f_new,
                h_x_new,
                &inv,
                res,
                *invert,
                *angles,
                *divide,
                ring(*plus, *times),
            ),
{
    let ghost op = ring(*plus, *times);
    let ghost before = *state;
    let ghost l = state.features_slam@[place as int];
    let t = new_anchor_timestamp;
    let landmark = &state.features_slam[place];
    let rep = landmark.representation;
    let old_cam_id = landmark.anchor_cam_id;
    let old_t = landmark.anchor_clone_timestamp;
    let source = landmark.get_xyz(false);
    let source_fej = landmark.get_xyz(true);
    let p = coordinates_of(&source, angles, plus, times, divide);
    let p_fej = coordinates_of(&source_fej, angles, plus, times, divide);
    let (old_place, new_place) = match (find_clone(state, old_t), find_clone(state, t)) {
        (Some(a), Some(b)) => (a, b),
        _ => {
            assert(false);
            (0, 0)
        },
    };
    let (old_pose, old_first) = &values.clones[old_place];
    let (new_pose, new_first) = &values.clones[new_place];
    let calib_old = &values.calibs[old_cam_id as usize];
    let calib_new = &values.calibs[new_cam_id];
    let q = see_from(&p, calib_old, old_pose, calib_new, new_pose, plus, times);
    let q_fej = see_from(&p_fej, calib_old, old_first, calib_new, new_first, plus, times);
    let under_old = get_feature_jacobian_representation(
        state,
        old_cam_id,
        old_t,
        rep,
        values,
        &p,
        angles,
        plus,
        times,
        divide,
    );
    let under_new = get_feature_jacobian_representation(
        state,
        new_cam_id as i32,
        t,
        rep,
        values,
        &q,
        angles,
        plus,
        times,
        divide,
    );
    let ghost repr_old = under_old;
    let ghost repr_new = under_new;
    let (h_f_old, blocks_old) = under_old;
    let (h_f_new, blocks_new) = under_new;
    let h_x_old = only_blocks(blocks_old);
    let h_x_new = only_blocks(blocks_new);
    let inv = solve_feature(&h_f_new, rep, invert, plus, times, divide);
    let ghost old_blocks = h_x_old@;
    let ghost new_blocks = h_x_new@;
    let ghost by_old = h_f_old;
    let ghost solved = inv;
    proof {
        assert(of_anchor(
            &by_old,
            old_blocks,
            &before,
            l.anchor_cam_id as int,
            l.anchor_clone_timestamp,
            rep,
            values,
            p@,
            *angles,
            *divide,
            op,
        )) by {
            assert(is_representation(
                &repr_old,
                &before,
                l.anchor_cam_id as int,
                l.anchor_clone_timestamp,
                rep,
                values,
                p@,
                *angles,
                *divide,
                op,
            ));
        }
        assert(of_anchor(
            &h_f_new,
            new_blocks,
            &before,
            new_cam_id as int,
            t,
            rep,
            values,
            q@,
            *angles,
            *divide,
            op,
        )) by {
            assert(is_representation(
                &repr_new,
                &before,
                new_cam_id as int,
                t,
                rep,
                values,
                q@,
                *angles,
                *divide,
                op,
            ));
        }
    }
    let result = match inv {
        None => Err(AnchorFault::Singular),
        Some(h_f_new_inv) => {
            let point = write_point(&q, angles, plus, times, divide);
            let first = write_point(&q_fej, angles, plus, times, divide);
            let d = AnchorDerivatives { h_f_old, h_x_old, h_f_new_inv, h_x_new };
            assert(d.wf(
                l.value@.len() as int,
                anchor_blocks(&before, l.anchor_cam_id as int, l.anchor_clone_timestamp),
                anchor_blocks(&before, new_cam_id as int, t),
            )) by {
                assert forall|i: int| 0 <= i < d.h_x_old@.len() implies (
                #[trigger] d.h_x_old@[i]).shaped(3, 6) by {
                    assert(d.h_x_old@[i] == repr_old.1@[i].2);
                }
                assert forall|i: int| 0 <= i < d.h_x_new@.len() implies (
                #[trigger] d.h_x_new@[i]).shaped(3, 6) by {
                    assert(d.h_x_new@[i] == repr_new.1@[i].2);
                }
            }
            let done = change_anchor(state, place, t, new_cam_id, &d, &point, &first, plus, times);
            proof {
                assert(anchor_changed(
                    &before,
                    state,
                    place as int,
                    t,
                    new_cam_id as int,
                    &d,
                    point,
                    first,
                    op,
                    done,
                ));
            }
            match done {
                Ok(_) => Ok(()),
                Err(k) => Err(AnchorFault::Negative(k)),
            }
        },
    };
    proof {
        assert(anchored_anew(
            &before,
            state,
            place as int,
            t,
            new_cam_id as int,
            values,
            &by_old,
            old_blocks,
            &h_f_new,
            new_blocks,
            &solved,
            result,
            *invert,
            *angles,
            *divide,
            op,
        ));
    }
    result
}

} // verus!
