//! The derivatives of a feature's measurements: by the feature, by the clones that
//! saw it, and by the clone that it is anchored to.

use vstd::prelude::*;

use crate::algebra::{
    add_matrices, dot, entries, flipped, is, lemma_dot_same, lemma_product, list_of, multiply,
    negate, negation, nothing, product, ring, row_of, square_of, sum_of, three_by_three, transform, unit,
    Ring,
};
use crate::arith::{
    apply_length, apply_one, apply_two, binary, length_of, lengths, of_one, of_two, unary,
};
use crate::double::{Double, ONE_BITS};
use crate::matrix::Matrix;
use crate::vio::estimates::Estimates;
use crate::vio::options::FeatRepresentation;
use crate::vio::state::{Run, State};
use crate::vio::state_helper::column;
use crate::vio::updater_helper::{
    anchor_runs, assemble, assembled, clone_at, clone_exists, clone_run, distinct, entry_fits,
    entry_value, find_clone, find_run, lays_out, lemma_columns_bounded, lemma_distinct,
    lemma_index_of, lemma_measured_monotonic, lemma_touched, lemma_touched_sizes, measurable,
    measured, plan_feature_jacobian, plan_of, planned, system_fits, touched_runs, CameraTrack,
    Feature, FeatureJacobian, JacobianPlan, MeasurementEntry,
};
use crate::vio::updater_slam::anchor_blocks;
use crate::void_types::motion::{
    difference3, minus3, place_point, placed, plus3, rotate3, rotated3, sum3, times3,
};
use crate::void_types::so3::{cross, skew};

verus! {

/// An orientation, from the world to the sensor and row by row, and a position.
#[derive(Clone, Copy, Debug)]
pub struct PoseValue {
    /// The orientation.
    pub rot: [Double; 9],
    /// The position.
    pub pos: [Double; 3],
}

/// Whether something can be asked of a camera's normalized points, always with the
/// same answer.
pub open spec fn answers<R, F: Fn(usize, [Double; 2]) -> R>(f: F) -> bool {
    &&& forall|c: usize, uv: [Double; 2]| #[trigger] call_requires(f, (c, uv))
    &&& forall|c: usize, uv: [Double; 2], a: R, b: R| #[trigger]
        call_ensures(f, (c, uv), a) && #[trigger] call_ensures(f, (c, uv), b) ==> a == b
}

/// Whether a camera gives an answer for a normalized point.
pub open spec fn has_answer<R, F: Fn(usize, [Double; 2]) -> R>(
    f: F,
    cam: usize,
    uv: Seq<Double>,
    r: R,
) -> bool {
    exists|a: [Double; 2]| a@ == uv && #[trigger] call_ensures(f, (cam, a), r)
}

/// The answer of a camera for a normalized point.
pub open spec fn answer<R, F: Fn(usize, [Double; 2]) -> R>(f: F, cam: usize, uv: Seq<Double>) -> R {
    choose|r: R| has_answer(f, cam, uv, r)
}

/// Asks a camera.
fn ask<R, F: Fn(usize, [Double; 2]) -> R>(f: &F, cam: usize, uv: [Double; 2]) -> (r: R)
    requires
        answers(*f),
    ensures
        r == answer(*f, cam, uv@),
{
    let r = f(cam, uv);
    assert(call_ensures(*f, (cam, uv), r));
    assert(has_answer(*f, cam, uv@, r));
    assert(r == answer(*f, cam, uv@)) by {
        let s = answer(*f, cam, uv@);
        assert(has_answer(*f, cam, uv@, s));
        let a = choose|a: [Double; 2]| a@ == uv@ && #[trigger] call_ensures(*f, (cam, a), s);
        assert(a@ == uv@ && call_ensures(*f, (cam, a), s));
        assert(a =~= uv);
    }
    r
}

/// A point of the world as a body sees it.
pub open spec fn in_body(pose: PoseValue, p: Seq<Double>, op: Ring) -> Seq<Double> {
    rotated3(pose.rot@, difference3(p, pose.pos@, op), op)
}

/// A point of the body as its camera sees it.
pub open spec fn in_camera(calib: PoseValue, p: Seq<Double>, op: Ring) -> Seq<Double> {
    placed(calib.rot@, p, calib.pos@, op)
}

/// A point divided by its depth.
pub open spec fn normalized<V: Fn(Double, Double) -> Double>(p: Seq<Double>, divide: V) -> Seq<Double> {
    seq![of_two(divide, p[0], p[2]), of_two(divide, p[1], p[2])]
}

/// The derivative of a normalized point by the point.
pub open spec fn normalized_slope<V: Fn(Double, Double) -> Double>(
    p: Seq<Double>,
    divide: V,
    op: Ring,
) -> spec_fn(int, int) -> Double {
    |i: int, j: int|
        if i == j {
            of_two(divide, Double { bits: ONE_BITS }, p[2])
        } else if j == 2 {
            of_two(divide, p[i].spec_neg(), (op.times)(p[2], p[2]))
        } else {
            Double { bits: 0 }
        }
}

/// The entries of four numbers, row by row.
pub open spec fn two_by_two(v: Seq<Double>) -> spec_fn(int, int) -> Double {
    |i: int, j: int| v[2 * i + j]
}

/// Two blocks of three columns side by side.
pub open spec fn beside(
    f: spec_fn(int, int) -> Double,
    g: spec_fn(int, int) -> Double,
) -> spec_fn(int, int) -> Double {
    |i: int, j: int|
        if j < 3 {
            f(i, j)
        } else {
            g(i, j - 3)
        }
}

/// The derivative of a pixel by the point in the camera.
pub open spec fn pixel_slope<
    J: Fn(usize, [Double; 2]) -> [Double; 4],
    V: Fn(Double, Double) -> Double,
>(cam: usize, p_c: Seq<Double>, slope: J, divide: V, op: Ring) -> spec_fn(int, int) -> Double {
    product(
        two_by_two(answer(slope, cam, normalized(p_c, divide))@),
        normalized_slope(p_c, divide, op),
        op,
        2,
    )
}

/// The derivative of the point in the camera by the point in the world.
pub open spec fn by_world(calib: PoseValue, pose: PoseValue, op: Ring) -> spec_fn(int, int) -> Double {
    product(three_by_three(calib.rot@), three_by_three(pose.rot@), op, 3)
}

/// The derivative of the point in the camera by the pose of the body.
pub open spec fn by_pose(calib: PoseValue, pose: PoseValue, p_i: Seq<Double>, op: Ring) -> spec_fn(
    int,
    int,
) -> Double {
    beside(
        product(three_by_three(calib.rot@), cross(p_i), op, 3),
        negation(by_world(calib, pose, op)),
    )
}

/// Where one camera measures a feature from.
#[derive(Clone, Copy, Debug)]
pub struct Vantage {
    /// The camera.
    pub cam: usize,
    /// The camera in the body.
    pub calib: PoseValue,
    /// The body.
    pub clone: PoseValue,
    /// The body as derivatives take it.
    pub clone_fej: PoseValue,
    /// The place of the clone among the variables.
    pub place: usize,
    /// The place of the camera's pose among the variables, where it is calibrated.
    pub calib_place: Option<usize>,
}

/// The derivative of a pixel by the point in the world.
pub open spec fn pixel_by_world<
    J: Fn(usize, [Double; 2]) -> [Double; 4],
    V: Fn(Double, Double) -> Double,
>(at: Vantage, p: Seq<Double>, slope: J, divide: V, op: Ring) -> spec_fn(int, int) -> Double {
    let p_c = in_camera(at.calib, in_body(at.clone_fej, p, op), op);
    product(
        pixel_slope(at.cam, p_c, slope, divide, op),
        by_world(at.calib, at.clone_fej, op),
        op,
        3,
    )
}

/// The derivative of a pixel by the pose of the clone.
pub open spec fn pixel_by_clone<
    J: Fn(usize, [Double; 2]) -> [Double; 4],
    V: Fn(Double, Double) -> Double,
>(at: Vantage, p: Seq<Double>, slope: J, divide: V, op: Ring) -> spec_fn(int, int) -> Double {
    let p_i = in_body(at.clone_fej, p, op);
    product(
        pixel_slope(at.cam, in_camera(at.calib, p_i, op), slope, divide, op),
        by_pose(at.calib, at.clone_fej, p_i, op),
        op,
        3,
    )
}

/// The derivative of a pixel by the pose of the camera in the body. It is taken at
/// the point that the camera sees now.
pub open spec fn pixel_by_calib<
    J: Fn(usize, [Double; 2]) -> [Double; 4],
    V: Fn(Double, Double) -> Double,
>(at: Vantage, p: Seq<Double>, slope: J, divide: V, op: Ring) -> spec_fn(int, int) -> Double {
    let p_c = in_camera(at.calib, in_body(at.clone, p, op), op);
    let q_c = in_camera(at.calib, in_body(at.clone_fej, p, op), op);
    product(
        pixel_slope(at.cam, q_c, slope, divide, op),
        beside(cross(difference3(p_c, at.calib.pos@, op)), unit()),
        op,
        3,
    )
}

/// The pixel at which a feature should be seen.
pub open spec fn expected_pixel<
    D: Fn(usize, [Double; 2]) -> [Double; 2],
    V: Fn(Double, Double) -> Double,
>(at: Vantage, p: Seq<Double>, distort: D, divide: V, op: Ring) -> Seq<Double> {
    let p_c = in_camera(at.calib, in_body(at.clone, p, op), op);
    answer(distort, at.cam, normalized(p_c, divide))@
}

/// The derivative of a feature's point by a variable, and the variable's place.
pub struct PlacedBlock {
    /// The place.
    pub place: usize,
    /// The derivative, three rows and six columns.
    pub block: Matrix,
}

/// What one measurement depends on: its clone, the variables that the feature's
/// point depends on, and its camera's pose where that is calibrated.
pub open spec fn contributions<
    J: Fn(usize, [Double; 2]) -> [Double; 4],
    V: Fn(Double, Double) -> Double,
>(at: Vantage, p: Seq<Double>, through: Seq<PlacedBlock>, slope: J, divide: V, op: Ring) -> Seq<
    (usize, spec_fn(int, int) -> Double),
> {
    let world = pixel_by_world(at, p, slope, divide, op);
    let own = seq![(at.place, pixel_by_clone(at, p, slope, divide, op))];
    let others = Seq::new(
        through.len(),
        |k: int| (through[k].place, product(world, entries(&through[k].block), op, 3)),
    );
    let camera = match at.calib_place {
        Some(c) => seq![(c, pixel_by_calib(at, p, slope, divide, op))],
        None => seq![],
    };
    own + others + camera
}

/// What the first `n` contributions add up to at a place.
pub open spec fn gathered(
    parts: Seq<(usize, spec_fn(int, int) -> Double)>,
    n: int,
    place: int,
    op: Ring,
) -> spec_fn(int, int) -> Double
    decreases n,
{
    if n <= 0 {
        nothing()
    } else if parts[n - 1].0 != place {
        gathered(parts, n - 1, place, op)
    } else if n == 1 {
        parts[0].1
    } else {
        sum_of(gathered(parts, n - 1, place, op), parts[n - 1].1, op)
    }
}

/// Whether the derivatives of an entry are, at each place, what the first `n`
/// contributions add up to.
pub open spec fn adds_up(
    entry: &MeasurementEntry,
    parts: Seq<(usize, spec_fn(int, int) -> Double)>,
    n: int,
    op: Ring,
) -> bool {
    forall|p: int, i: int, j: int|
        0 <= i < 2 && 0 <= j < 6 ==> #[trigger] entry_value(
            entry,
            entry.blocks@.len() as int,
            p,
            i,
            j,
        ) == gathered(parts, n, p, op)(i, j)
}

/// Whether an entry is what one measurement says: the pixel less the expected one,
/// and its derivatives by the feature and by all that it depends on.
pub open spec fn is_entry<
    D: Fn(usize, [Double; 2]) -> [Double; 2],
    J: Fn(usize, [Double; 2]) -> [Double; 4],
    V: Fn(Double, Double) -> Double,
>(
    entry: &MeasurementEntry,
    at: Vantage,
    uv: Seq<Double>,
    p: Seq<Double>,
    param: &Matrix,
    through: Seq<PlacedBlock>,
    distort: D,
    slope: J,
    divide: V,
    op: Ring,
) -> bool {
    let pixel = expected_pixel(at, p, distort, divide, op);
    let world = pixel_by_world(at, p, slope, divide, op);
    let parts = contributions(at, p, through, slope, divide, op);
    &&& entry.res@ == Seq::new(2, |k: int| (op.plus)(uv[k], pixel[k].spec_neg()))
    &&& is(&entry.h_f, 2, param.width(), product(world, entries(param), op, 3))
    &&& adds_up(entry, parts, parts.len() as int, op)
}

/// Whether the blocks of an entry are those of variables of six rows, none twice.
pub open spec fn six_wide(entry: &MeasurementEntry, order: Seq<Run>) -> bool {
    &&& forall|b: int|
        0 <= b < entry.blocks@.len() ==> (#[trigger] entry.blocks@[b]).0 < order.len()
            && order[entry.blocks@[b].0 as int].1 == 6 && entry.blocks@[b].1.shaped(2, 6)
    &&& forall|a: int, b: int|
        0 <= a < b < entry.blocks@.len() ==> (#[trigger] entry.blocks@[a]).0 != (
        #[trigger] entry.blocks@[b]).0
}

/// What an entry holds at a place: the block there, or nothing.
proof fn lemma_entry_value(entry: &MeasurementEntry, n: int, p: int, i: int, j: int)
    requires
        0 <= n <= entry.blocks@.len(),
        forall|a: int, b: int|
            0 <= a < b < entry.blocks@.len() ==> (#[trigger] entry.blocks@[a]).0 != (
            #[trigger] entry.blocks@[b]).0,
    ensures
        forall|b: int|
            0 <= b < n && (#[trigger] entry.blocks@[b]).0 == p ==> entry_value(entry, n, p, i, j)
                == entry.blocks@[b].1.at(i, j),
        (forall|b: int| 0 <= b < n ==> (#[trigger] entry.blocks@[b]).0 != p) ==> entry_value(
            entry,
            n,
            p,
            i,
            j,
        ) == (Double { bits: 0 }),
    decreases n,
{
    if n > 0 {
        lemma_entry_value(entry, n - 1, p, i, j);
    }
}

/// Adds a derivative to what an entry holds at a place.
fn put_block<P: Fn(Double, Double) -> Double>(
    entry: &mut MeasurementEntry,
    place: usize,
    m: &Matrix,
    Ghost(order): Ghost<Seq<Run>>,
    plus: &P,
)
    requires
        six_wide(old(entry), order),
        place < order.len(),
        order[place as int].1 == 6,
        m.shaped(2, 6),
        binary(*plus),
    ensures
        six_wide(final(entry), order),
        final(entry).res == old(entry).res,
        final(entry).h_f == old(entry).h_f,
        forall|p: int, i: int, j: int|
            0 <= i < 2 && 0 <= j < 6 ==> #[trigger] entry_value(
                final(entry),
                final(entry).blocks@.len() as int,
                p,
                i,
                j,
            ) == (if p == place {
                of_two(
                    *plus,
                    entry_value(old(entry), old(entry).blocks@.len() as int, p, i, j),
                    m.at(i, j),
                )
            } else {
                entry_value(old(entry), old(entry).blocks@.len() as int, p, i, j)
            }),
{
    let ghost before = *entry;
    let n: usize = entry.blocks.len();
    let mut b: usize = 0;
    while b < n && entry.blocks[b].0 != place
        invariant
            *entry == before,
            n == entry.blocks@.len(),
            b <= n,
            forall|k: int| 0 <= k < b ==> (#[trigger] entry.blocks@[k]).0 != place,
        decreases n - b,
    {
        b += 1;
    }
    if b < n {
        let sum = add_matrices(&entry.blocks[b].1, m, plus);
        entry.blocks.set(b, (place, sum));
    } else {
        let none = Matrix::filled(2, 6, Double::zero());
        let sum = add_matrices(&none, m, plus);
        entry.blocks.push((place, sum));
    }
    proof {
        let ghost len = entry.blocks@.len() as int;
        assert(six_wide(entry, order)) by {
            assert forall|k: int| 0 <= k < len implies (#[trigger] entry.blocks@[k]).0 < order.len()
                && order[entry.blocks@[k].0 as int].1 == 6 && entry.blocks@[k].1.shaped(2, 6) by {
                if k != b {
                    assert(entry.blocks@[k] == before.blocks@[k]);
                }
            }
            assert forall|k: int, l: int| 0 <= k < l < len implies (#[trigger] entry.blocks@[k]).0 != (
            #[trigger] entry.blocks@[l]).0 by {
                if k != b {
                    assert(entry.blocks@[k] == before.blocks@[k]);
                }
                if l != b {
                    assert(entry.blocks@[l] == before.blocks@[l]);
                }
                if b < n {
                    assert(before.blocks@[b as int].0 == place);
                }
            }
        }
        assert forall|p: int, i: int, j: int| 0 <= i < 2 && 0 <= j < 6 implies #[trigger] entry_value(
            entry,
            len,
            p,
            i,
            j,
        ) == (if p == place {
            of_two(*plus, entry_value(&before, n as int, p, i, j), m.at(i, j))
        } else {
            entry_value(&before, n as int, p, i, j)
        }) by {
            lemma_entry_value(entry, len, p, i, j);
            lemma_entry_value(&before, n as int, p, i, j);
            assert(m.has(i, j));
            if p == place {
                assert(entry.blocks@[b as int].0 == p);
                assert(entry.blocks@[b as int].1.has(i, j));
                if b < n {
                    assert(before.blocks@[b as int].1.has(i, j));
                }
            } else if exists|k: int| 0 <= k < n && (#[trigger] before.blocks@[k]).0 == p {
                let k = choose|k: int| 0 <= k < n && (#[trigger] before.blocks@[k]).0 == p;
                assert(k != b);
                assert(entry.blocks@[k] == before.blocks@[k]);
            } else {
                assert forall|k: int| 0 <= k < len implies (#[trigger] entry.blocks@[k]).0 != p by {
                    if k != b {
                        assert(entry.blocks@[k] == before.blocks@[k]);
                    }
                }
            }
        }
    }
}

/// A point as a body and its camera see it.
fn seen<P: Fn(Double, Double) -> Double, T: Fn(Double, Double) -> Double>(
    calib: &PoseValue,
    pose: &PoseValue,
    p: &[Double; 3],
    plus: &P,
    times: &T,
) -> (both: ([Double; 3], [Double; 3]))
    requires
        binary(*plus),
        binary(*times),
    ensures
        both.0@ == in_body(*pose, p@, ring(*plus, *times)),
        both.1@ == in_camera(*calib, both.0@, ring(*plus, *times)),
{
    let off = minus3(p, &pose.pos, plus, times);
    let p_i = rotate3(&pose.rot, &off, plus, times);
    let p_c = place_point(&calib.rot, &p_i, &calib.pos, plus, times);
    (p_i, p_c)
}

/// A point divided by its depth.
fn normalize<V: Fn(Double, Double) -> Double>(p: &[Double; 3], divide: &V) -> (uv: [Double; 2])
    requires
        binary(*divide),
    ensures
        uv@ == normalized(p@, *divide),
{
    let uv = [apply_two(divide, p[0], p[2]), apply_two(divide, p[1], p[2])];
    assert(uv@ =~= normalized(p@, *divide));
    uv
}

/// The derivative of a pixel by the point in the camera.
fn slope_at<
    J: Fn(usize, [Double; 2]) -> [Double; 4],
    P: Fn(Double, Double) -> Double,
    T: Fn(Double, Double) -> Double,
    V: Fn(Double, Double) -> Double,
>(cam: usize, p_c: &[Double; 3], slope: &J, plus: &P, times: &T, divide: &V) -> (m: Matrix)
    requires
        answers(*slope),
        binary(*plus),
        binary(*times),
        binary(*divide),
    ensures
        is(&m, 2, 3, pixel_slope(cam, p_c@, *slope, *divide, ring(*plus, *times))),
{
    let ghost op = ring(*plus, *times);
    let uv = normalize(p_c, divide);
    let s = ask(slope, cam, uv);
    let mut left = Matrix::filled(2, 2, Double::zero());
    left.set(0, 0, s[0]);
    left.set(0, 1, s[1]);
    left.set(1, 0, s[2]);
    left.set(1, 1, s[3]);
    let over = apply_two(divide, Double::one(), p_c[2]);
    let z2 = apply_two(times, p_c[2], p_c[2]);
    let mut right = Matrix::filled(2, 3, Double::zero());
    right.set(0, 0, over);
    right.set(0, 2, apply_two(divide, p_c[0].neg(), z2));
    right.set(1, 1, over);
    right.set(1, 2, apply_two(divide, p_c[1].neg(), z2));
    let m = multiply(&left, &right, plus, times);
    proof {
        assert(is(&left, 2, 2, two_by_two(s@)));
        assert(is(&right, 2, 3, normalized_slope(p_c@, *divide, op)));
        lemma_product(
            &m,
            &left,
            &right,
            two_by_two(s@),
            normalized_slope(p_c@, *divide, op),
            op,
        );
    }
    m
}

/// Two blocks of three columns side by side.
fn join(a: &Matrix, b: &Matrix) -> (m: Matrix)
    requires
        a.shaped(3, 3),
        b.shaped(3, 3),
    ensures
        is(&m, 3, 6, beside(entries(a), entries(b))),
{
    let mut m = Matrix::filled(3, 6, Double::zero());
    m.set_block(0, 0, a);
    m.set_block(0, 3, b);
    m
}

/// What two blocks side by side hold.
proof fn lemma_joined(
    m: &Matrix,
    a: &Matrix,
    b: &Matrix,
    f: spec_fn(int, int) -> Double,
    g: spec_fn(int, int) -> Double,
)
    requires
        is(m, 3, 6, beside(entries(a), entries(b))),
        is(a, 3, 3, f),
        is(b, 3, 3, g),
    ensures
        is(m, 3, 6, beside(f, g)),
{
    assert forall|i: int, j: int| m.has(i, j) implies #[trigger] m.at(i, j) == beside(f, g)(i, j) by {
        if j < 3 {
            assert(a.has(i, j));
        } else {
            assert(b.has(i, j - 3));
        }
    }
}

/// What one measurement says of a feature at the given point. `param` is the
/// derivative of the point by what the feature is written down with, `through` are
/// those by the variables that the point depends on.
pub fn measurement_entry<
    D: Fn(usize, [Double; 2]) -> [Double; 2],
    J: Fn(usize, [Double; 2]) -> [Double; 4],
    P: Fn(Double, Double) -> Double,
    T: Fn(Double, Double) -> Double,
    V: Fn(Double, Double) -> Double,
>(
    at: &Vantage,
    uv: &[Double; 2],
    p: &[Double; 3],
    param: &Matrix,
    through: &Vec<PlacedBlock>,
    order: &Vec<(i32, usize)>,
    distort: &D,
    slope: &J,
    plus: &P,
    times: &T,
    divide: &V,
) -> (entry: MeasurementEntry)
    requires
        param.wf(),
        param.height() == 3,
        2 * param.width() <= usize::MAX,
        at.place < order@.len() && order@[at.place as int].1 == 6,
        at.calib_place matches Some(c) ==> c < order@.len() && order@[c as int].1 == 6,
        forall|k: int|
            0 <= k < through@.len() ==> (#[trigger] through@[k]).place < order@.len()
                && order@[through@[k].place as int].1 == 6 && through@[k].block.shaped(3, 6),
        answers(*distort),
        answers(*slope),
        binary(*plus),
        binary(*times),
        binary(*divide),
    ensures
        six_wide(&entry, order@),
        is_entry(
            &entry,
            *at,
            uv@,
            p@,
            param,
            through@,
            *distort,
            *slope,
            *divide,
            ring(*plus, *times),
        ),
{
    let ghost op = ring(*plus, *times);
    let ghost parts = contributions(*at, p@, through@, *slope, *divide, op);
    let (_, p_c) = seen(&at.calib, &at.clone, p, plus, times);
    let pixel = ask(distort, at.cam, normalize(&p_c, divide));
    let res = [
        apply_two(plus, uv[0], pixel[0].neg()),
        apply_two(plus, uv[1], pixel[1].neg()),
    ];
    assert(res@ =~= Seq::new(2, |k: int| (op.plus)(uv@[k], pixel@[k].spec_neg())));
    let (q_i, q) = seen(&at.calib, &at.clone_fej, p, plus, times);
    let dz = slope_at(at.cam, &q, slope, plus, times, divide);
    let r_c = square_of(&at.calib.rot);
    let r_i = square_of(&at.clone_fej.rot);
    let turn = multiply(&r_c, &r_i, plus, times);
    let ghost dzf = pixel_slope(at.cam, q@, *slope, *divide, op);
    let ghost turnf = by_world(at.calib, at.clone_fej, op);
    proof {
        lemma_product(
            &turn,
            &r_c,
            &r_i,
            three_by_three(at.calib.rot@),
            three_by_three(at.clone_fej.rot@),
            op,
        );
    }
    let world = multiply(&dz, &turn, plus, times);
    let ghost worldf = pixel_by_world(*at, p@, *slope, *divide, op);
    proof {
        lemma_product(&world, &dz, &turn, dzf, turnf, op);
    }
    let h_f = multiply(&world, param, plus, times);
    proof {
        lemma_product(&h_f, &world, param, worldf, entries(param), op);
    }
    let k = skew(&q_i);
    let swing = multiply(&r_c, &k, plus, times);
    proof {
        lemma_product(&swing, &r_c, &k, three_by_three(at.calib.rot@), cross(q_i@), op);
    }
    let away = negate(&turn);
    let pose = join(&swing, &away);
    let ghost posef = by_pose(at.calib, at.clone_fej, q_i@, op);
    proof {
        assert(is(&away, 3, 3, negation(turnf)));
        lemma_joined(
            &pose,
            &swing,
            &away,
            product(three_by_three(at.calib.rot@), cross(q_i@), op, 3),
            negation(turnf),
        );
    }
    let own = multiply(&dz, &pose, plus, times);
    let ghost ownf = pixel_by_clone(*at, p@, *slope, *divide, op);
    proof {
        lemma_product(&own, &dz, &pose, dzf, posef, op);
    }
    let ghost first = own;
    let mut blocks: Vec<(usize, Matrix)> = Vec::new();
    blocks.push((at.place, own));
    let mut entry = MeasurementEntry { res, h_f, blocks };
    proof {
        assert(parts[0] == (at.place, ownf));
        assert forall|x: int, i: int, j: int| 0 <= i < 2 && 0 <= j < 6 implies #[trigger] entry_value(
            &entry,
            entry.blocks@.len() as int,
            x,
            i,
            j,
        ) == gathered(parts, 1, x, op)(i, j) by {
            assert(first.has(i, j));
            assert(first.at(i, j) == ownf(i, j));
            assert(entry.blocks@[0] == (at.place, first));
            lemma_entry_value(&entry, 1, x, i, j);
            reveal_with_fuel(gathered, 2);
        }
    }
    let mut n: usize = 0;
    while n < through.len()
        invariant
            n <= through@.len(),
            op == ring(*plus, *times),
            binary(*plus),
            binary(*times),
            is(&world, 2, 3, worldf),
            worldf == pixel_by_world(*at, p@, *slope, *divide, op),
            parts == contributions(*at, p@, through@, *slope, *divide, op),
            forall|k: int|
                0 <= k < through@.len() ==> (#[trigger] through@[k]).place < order@.len()
                    && order@[through@[k].place as int].1 == 6 && through@[k].block.shaped(3, 6),
            entry.res == res,
            entry.h_f == h_f,
            six_wide(&entry, order@),
            adds_up(&entry, parts, n + 1, op),
        decreases through@.len() - n,
    {
        let b = &through[n];
        let m = multiply(&world, &b.block, plus, times);
        let ghost f = product(worldf, entries(&b.block), op, 3);
        proof {
            lemma_product(&m, &world, &b.block, worldf, entries(&b.block), op);
            assert(parts[n + 1] == (b.place, f));
        }
        let ghost before = entry;
        put_block(&mut entry, b.place, &m, Ghost(order@), plus);
        proof {
            lemma_added(&before, &entry, b.place, &m, f, parts, n + 1, op);
        }
        n += 1;
    }
    if let Some(c) = at.calib_place {
        let off = minus3(&p_c, &at.calib.pos, plus, times);
        let k = skew(&off);
        let still = identity();
        let by = join(&k, &still);
        let ghost byf = beside(cross(off@), unit());
        proof {
            lemma_joined(&by, &k, &still, cross(off@), unit());
        }
        let m = multiply(&dz, &by, plus, times);
        let ghost f = pixel_by_calib(*at, p@, *slope, *divide, op);
        proof {
            lemma_product(&m, &dz, &by, dzf, byf, op);
            assert(parts[through@.len() as int + 1] == (c, f));
        }
        let ghost before = entry;
        put_block(&mut entry, c, &m, Ghost(order@), plus);
        proof {
            lemma_added(&before, &entry, c, &m, f, parts, through@.len() as int + 1, op);
        }
    }
    entry
}

/// A block that was put down adds the next contribution.
proof fn lemma_added(
    before: &MeasurementEntry,
    after: &MeasurementEntry,
    place: usize,
    m: &Matrix,
    f: spec_fn(int, int) -> Double,
    parts: Seq<(usize, spec_fn(int, int) -> Double)>,
    n: int,
    op: Ring,
)
    requires
        1 <= n < parts.len(),
        parts[n] == (place, f),
        is(m, 2, 6, f),
        adds_up(before, parts, n, op),
        forall|p: int, i: int, j: int|
            0 <= i < 2 && 0 <= j < 6 ==> #[trigger] entry_value(
                after,
                after.blocks@.len() as int,
                p,
                i,
                j,
            ) == (if p == place {
                (op.plus)(entry_value(before, before.blocks@.len() as int, p, i, j), m.at(i, j))
            } else {
                entry_value(before, before.blocks@.len() as int, p, i, j)
            }),
    ensures
        adds_up(after, parts, n + 1, op),
{
    assert forall|p: int, i: int, j: int| 0 <= i < 2 && 0 <= j < 6 implies #[trigger] entry_value(
        after,
        after.blocks@.len() as int,
        p,
        i,
        j,
    ) == gathered(parts, n + 1, p, op)(i, j) by {
        assert(m.has(i, j));
        assert(m.at(i, j) == f(i, j));
        assert(entry_value(before, before.blocks@.len() as int, p, i, j) == gathered(
            parts,
            n,
            p,
            op,
        )(i, j));
    }
}

/// A matrix of three rows and columns applied to a vector.
pub open spec fn carried(m: spec_fn(int, int) -> Double, v: Seq<Double>, op: Ring) -> Seq<Double> {
    Seq::new(3, |i: int| dot(row_of(m, i), list_of(v), op, 3))
}

/// The turn from an anchor camera to the world.
pub open spec fn to_world(anchor: PoseValue, calib: PoseValue, op: Ring) -> spec_fn(int, int) -> Double {
    product(
        flipped(three_by_three(anchor.rot@)),
        flipped(three_by_three(calib.rot@)),
        op,
        3,
    )
}

/// The world's point of a point in an anchor camera.
pub open spec fn world_point(anchor: PoseValue, calib: PoseValue, p: Seq<Double>, op: Ring) -> Seq<Double> {
    sum3(
        carried(to_world(anchor, calib, op), difference3(p, calib.pos@, op), op),
        anchor.pos@,
        op,
    )
}

/// The point in an anchor camera of a point of the world.
pub open spec fn anchor_point(anchor: PoseValue, calib: PoseValue, p: Seq<Double>, op: Ring) -> Seq<
    Double,
> {
    sum3(
        carried(flipped(to_world(anchor, calib, op)), difference3(p, anchor.pos@, op), op),
        calib.pos@,
        op,
    )
}

/// The functions that angles and lengths are computed with.
pub struct Angles<L, A, C, S, K> {
    /// The length of a vector.
    pub length: L,
    /// The angle of a point in the plane, from its second and first coordinate.
    pub atan2: A,
    /// The inverse cosine.
    pub acos: C,
    /// The sine.
    pub sin: S,
    /// The cosine.
    pub cos: K,
}

impl<
    L: Fn([Double; 3]) -> Double,
    A: Fn(Double, Double) -> Double,
    C: Fn(Double) -> Double,
    S: Fn(Double) -> Double,
    K: Fn(Double) -> Double,
> Angles<L, A, C, S, K> {
    /// Whether all of them are functions.
    pub open spec fn wf(&self) -> bool {
        &&& lengths(self.length)
        &&& binary(self.atan2)
        &&& unary(self.acos)
        &&& unary(self.sin)
        &&& unary(self.cos)
    }

    /// One over the length of a point.
    pub open spec fn inverse_range<V: Fn(Double, Double) -> Double>(
        &self,
        p: Seq<Double>,
        divide: V,
    ) -> Double {
        of_two(divide, Double { bits: ONE_BITS }, length_of(self.length, p))
    }

    /// The angle of a point about the axis of sight.
    pub open spec fn theta(&self, p: Seq<Double>) -> Double {
        of_two(self.atan2, p[1], p[0])
    }

    /// The angle of a point off the axis of sight.
    pub open spec fn phi<V: Fn(Double, Double) -> Double>(
        &self,
        p: Seq<Double>,
        divide: V,
        op: Ring,
    ) -> Double {
        of_one(self.acos, (op.times)(self.inverse_range(p, divide), p[2]))
    }
}

/// The derivative of a point by its two angles and its inverse range, for the
/// sines and cosines of the angles.
pub open spec fn angular_slope(
    i1: Double,
    i2: Double,
    st: Double,
    ct: Double,
    sp: Double,
    cp: Double,
    op: Ring,
) -> spec_fn(int, int) -> Double {
    |i: int, j: int|
        if i == 0 && j == 0 {
            (op.times)((op.times)(i1.spec_neg(), st), sp)
        } else if i == 0 && j == 1 {
            (op.times)((op.times)(i1, ct), cp)
        } else if i == 0 {
            (op.times)((op.times)(i2.spec_neg(), ct), sp)
        } else if i == 1 && j == 0 {
            (op.times)((op.times)(i1, ct), sp)
        } else if i == 1 && j == 1 {
            (op.times)((op.times)(i1, st), cp)
        } else if i == 1 {
            (op.times)((op.times)(i2.spec_neg(), st), sp)
        } else if j == 0 {
            Double { bits: 0 }
        } else if j == 1 {
            (op.times)(i1.spec_neg(), sp)
        } else {
            (op.times)(i2.spec_neg(), cp)
        }
}

/// The derivative of a point by its normalized coordinates and its inverse depth.
pub open spec fn depth_slope<V: Fn(Double, Double) -> Double>(
    i1: Double,
    i2: Double,
    p: Seq<Double>,
    divide: V,
    op: Ring,
) -> spec_fn(int, int) -> Double {
    |i: int, j: int|
        if i == 2 && j == 2 {
            i2.spec_neg()
        } else if j == 2 {
            (op.times)(i2.spec_neg(), of_two(divide, p[i], p[2]))
        } else if i == j {
            i1
        } else {
            Double { bits: 0 }
        }
}

/// The derivative of a point by its inverse depth alone.
pub open spec fn bearing_slope(i2: Double, rho: Double, p: Seq<Double>, op: Ring) -> spec_fn(
    int,
    int,
) -> Double {
    |i: int, j: int| (op.times)((op.times)(p[i], rho), i2.spec_neg())
}

/// The derivative of a point in its anchor camera by the numbers that the
/// representation writes it down with.
pub open spec fn parameter_slope<
    L: Fn([Double; 3]) -> Double,
    A: Fn(Double, Double) -> Double,
    C: Fn(Double) -> Double,
    S: Fn(Double) -> Double,
    K: Fn(Double) -> Double,
    V: Fn(Double, Double) -> Double,
>(
    rep: FeatRepresentation,
    p: Seq<Double>,
    angles: Angles<L, A, C, S, K>,
    divide: V,
    op: Ring,
) -> spec_fn(int, int) -> Double {
    let one = Double { bits: ONE_BITS };
    if rep is AnchoredFullInverseDepth {
        let rho = angles.inverse_range(p, divide);
        let theta = angles.theta(p);
        let phi = angles.phi(p, divide, op);
        angular_slope(
            of_two(divide, one, rho),
            of_two(divide, one, (op.times)(rho, rho)),
            of_one(angles.sin, theta),
            of_one(angles.cos, theta),
            of_one(angles.sin, phi),
            of_one(angles.cos, phi),
            op,
        )
    } else {
        let rho = of_two(divide, one, p[2]);
        let i2 = of_two(divide, one, (op.times)(rho, rho));
        if rep is AnchoredMsckfInverseDepth {
            depth_slope(of_two(divide, one, rho), i2, p, divide, op)
        } else {
            bearing_slope(i2, rho, p, op)
        }
    }
}

/// The derivative of a feature's point in the world by what it is written down
/// with.
pub open spec fn by_parameters<
    L: Fn([Double; 3]) -> Double,
    A: Fn(Double, Double) -> Double,
    C: Fn(Double) -> Double,
    S: Fn(Double) -> Double,
    K: Fn(Double) -> Double,
    V: Fn(Double, Double) -> Double,
>(
    rep: FeatRepresentation,
    anchor: PoseValue,
    calib: PoseValue,
    p: Seq<Double>,
    angles: Angles<L, A, C, S, K>,
    divide: V,
    op: Ring,
) -> spec_fn(int, int) -> Double {
    if !rep.spec_is_relative() {
        unit()
    } else if rep is Anchored3D {
        to_world(anchor, calib, op)
    } else {
        product(
            to_world(anchor, calib, op),
            parameter_slope(rep, p, angles, divide, op),
            op,
            3,
        )
    }
}

/// The derivative of a feature's point in the world by the pose of its anchor.
pub open spec fn by_anchor(anchor: PoseValue, calib: PoseValue, p: Seq<Double>, op: Ring) -> spec_fn(
    int,
    int,
) -> Double {
    let lever = carried(
        flipped(three_by_three(calib.rot@)),
        difference3(p, calib.pos@, op),
        op,
    );
    beside(
        product(negation(flipped(three_by_three(anchor.rot@))), cross(lever), op, 3),
        unit(),
    )
}

/// The derivative of a feature's point in the world by the pose of its anchor's
/// camera in the body.
pub open spec fn by_calibration(anchor: PoseValue, calib: PoseValue, p: Seq<Double>, op: Ring) -> spec_fn(
    int,
    int,
) -> Double {
    let away = negation(to_world(anchor, calib, op));
    beside(product(away, cross(difference3(p, calib.pos@, op)), op, 3), away)
}

/// A matrix applied to a vector.
pub(crate) fn carry<P: Fn(Double, Double) -> Double, T: Fn(Double, Double) -> Double>(
    m: &Matrix,
    v: &[Double; 3],
    Ghost(f): Ghost<spec_fn(int, int) -> Double>,
    plus: &P,
    times: &T,
) -> (r: [Double; 3])
    requires
        is(m, 3, 3, f),
        binary(*plus),
        binary(*times),
    ensures
        r@ == carried(f, v@, ring(*plus, *times)),
{
    let ghost op = ring(*plus, *times);
    let list: Vec<Double> = vec![v[0], v[1], v[2]];
    let out = transform(m, &list, plus, times);
    assert forall|i: int| 0 <= i < 3 implies #[trigger] out@[i] == carried(f, v@, op)[i] by {
        assert(m.has(i, 0) && m.has(i, 1) && m.has(i, 2));
        lemma_dot_same(
            row_of(entries(m), i),
            list_of(list@),
            row_of(f, i),
            list_of(v@),
            op,
            3,
        );
    }
    let r = [out[0], out[1], out[2]];
    assert(r@ =~= carried(f, v@, op));
    r
}

/// The turn from an anchor camera to the world.
fn turn_to_world<P: Fn(Double, Double) -> Double, T: Fn(Double, Double) -> Double>(
    anchor: &PoseValue,
    calib: &PoseValue,
    plus: &P,
    times: &T,
) -> (m: Matrix)
    requires
        binary(*plus),
        binary(*times),
    ensures
        is(&m, 3, 3, to_world(*anchor, *calib, ring(*plus, *times))),
{
    let a = flip(&anchor.rot);
    let c = flip(&calib.rot);
    let m = multiply(&a, &c, plus, times);
    proof {
        lemma_product(
            &m,
            &a,
            &c,
            flipped(three_by_three(anchor.rot@)),
            flipped(three_by_three(calib.rot@)),
            ring(*plus, *times),
        );
    }
    m
}

/// A turn the other way.
fn flip(rot: &[Double; 9]) -> (m: Matrix)
    ensures
        is(&m, 3, 3, flipped(three_by_three(rot@))),
{
    let v = [rot[0], rot[3], rot[6], rot[1], rot[4], rot[7], rot[2], rot[5], rot[8]];
    square_of(&v)
}

/// The point in the world of a point in an anchor camera.
pub fn from_anchor<P: Fn(Double, Double) -> Double, T: Fn(Double, Double) -> Double>(
    anchor: &PoseValue,
    calib: &PoseValue,
    p: &[Double; 3],
    plus: &P,
    times: &T,
) -> (r: [Double; 3])
    requires
        binary(*plus),
        binary(*times),
    ensures
        r@ == world_point(*anchor, *calib, p@, ring(*plus, *times)),
{
    let m = turn_to_world(anchor, calib, plus, times);
    let off = minus3(p, &calib.pos, plus, times);
    let turned = carry(
        &m,
        &off,
        Ghost(to_world(*anchor, *calib, ring(*plus, *times))),
        plus,
        times,
    );
    plus3(&turned, &anchor.pos, plus, times)
}

/// The point in an anchor camera of a point in the world.
fn into_anchor<P: Fn(Double, Double) -> Double, T: Fn(Double, Double) -> Double>(
    anchor: &PoseValue,
    calib: &PoseValue,
    p: &[Double; 3],
    plus: &P,
    times: &T,
) -> (r: [Double; 3])
    requires
        binary(*plus),
        binary(*times),
    ensures
        r@ == anchor_point(*anchor, *calib, p@, ring(*plus, *times)),
{
    let ghost f = flipped(to_world(*anchor, *calib, ring(*plus, *times)));
    let m = turn_to_world(anchor, calib, plus, times).transpose();
    assert(is(&m, 3, 3, f));
    let off = minus3(p, &anchor.pos, plus, times);
    let turned = carry(&m, &off, Ghost(f), plus, times);
    plus3(&turned, &calib.pos, plus, times)
}

/// The derivative of a point by its two angles and its inverse range.
fn angular<P: Fn(Double, Double) -> Double, T: Fn(Double, Double) -> Double>(
    i1: Double,
    i2: Double,
    st: Double,
    ct: Double,
    sp: Double,
    cp: Double,
    plus: &P,
    times: &T,
) -> (m: Matrix)
    requires
        binary(*plus),
        binary(*times),
    ensures
        is(&m, 3, 3, angular_slope(i1, i2, st, ct, sp, cp, ring(*plus, *times))),
{
    let zero = Double::zero();
    let v = [
        apply_two(times, apply_two(times, i1.neg(), st), sp),
        apply_two(times, apply_two(times, i1, ct), cp),
        apply_two(times, apply_two(times, i2.neg(), ct), sp),
        apply_two(times, apply_two(times, i1, ct), sp),
        apply_two(times, apply_two(times, i1, st), cp),
        apply_two(times, apply_two(times, i2.neg(), st), sp),
        zero,
        apply_two(times, i1.neg(), sp),
        apply_two(times, i2.neg(), cp),
    ];
    square_of(&v)
}

/// The derivative of a point in its anchor camera by the numbers that an inverse
/// depth representation writes it down with.
fn slope_by_parameters<
    L: Fn([Double; 3]) -> Double,
    A: Fn(Double, Double) -> Double,
    C: Fn(Double) -> Double,
    S: Fn(Double) -> Double,
    K: Fn(Double) -> Double,
    P: Fn(Double, Double) -> Double,
    T: Fn(Double, Double) -> Double,
    V: Fn(Double, Double) -> Double,
>(
    rep: FeatRepresentation,
    p: &[Double; 3],
    angles: &Angles<L, A, C, S, K>,
    plus: &P,
    times: &T,
    divide: &V,
) -> (m: Matrix)
    requires
        rep.spec_is_relative(),
        !(rep is Anchored3D),
        angles.wf(),
        binary(*plus),
        binary(*times),
        binary(*divide),
    ensures
        is(&m, 3, rep.dim(), parameter_slope(rep, p@, *angles, *divide, ring(*plus, *times))),
{
    let one = Double::one();
    if matches!(rep, FeatRepresentation::AnchoredFullInverseDepth) {
        let rho = apply_two(divide, one, apply_length(&angles.length, *p));
        let phi = apply_one(&angles.acos, apply_two(times, rho, p[2]));
        let theta = apply_two(&angles.atan2, p[1], p[0]);
        return angular(
            apply_two(divide, one, rho),
            apply_two(divide, one, apply_two(times, rho, rho)),
            apply_one(&angles.sin, theta),
            apply_one(&angles.cos, theta),
            apply_one(&angles.sin, phi),
            apply_one(&angles.cos, phi),
            plus,
            times,
        );
    }
    let rho = apply_two(divide, one, p[2]);
    let i2 = apply_two(divide, one, apply_two(times, rho, rho));
    if matches!(rep, FeatRepresentation::AnchoredMsckfInverseDepth) {
        let i1 = apply_two(divide, one, rho);
        let zero = Double::zero();
        let v = [
            i1,
            zero,
            apply_two(times, i2.neg(), apply_two(divide, p[0], p[2])),
            zero,
            i1,
            apply_two(times, i2.neg(), apply_two(divide, p[1], p[2])),
            zero,
            zero,
            i2.neg(),
        ];
        square_of(&v)
    } else {
        let bearing = times3(p, rho, plus, times);
        let v = times3(&bearing, i2.neg(), plus, times);
        let mut m = Matrix::filled(3, 1, Double::zero());
        m.set(0, 0, v[0]);
        m.set(1, 0, v[1]);
        m.set(2, 0, v[2]);
        m
    }
}

/// How a feature's point in the world depends on what it is written down with, on
/// its anchor and on the anchor's camera.
pub struct PointSlopes {
    /// By the numbers that the feature is written down with.
    pub h_f: Matrix,
    /// By the pose of the anchor; a feature without one depends on none.
    pub anchor: Option<Matrix>,
    /// By the pose of the camera, where that is calibrated.
    pub calib: Option<Matrix>,
}

/// Whether the derivatives are those of a point in an anchor camera.
pub open spec fn are_slopes<
    L: Fn([Double; 3]) -> Double,
    A: Fn(Double, Double) -> Double,
    C: Fn(Double) -> Double,
    S: Fn(Double) -> Double,
    K: Fn(Double) -> Double,
    V: Fn(Double, Double) -> Double,
>(
    slopes: &PointSlopes,
    rep: FeatRepresentation,
    anchor: PoseValue,
    calib: PoseValue,
    p: Seq<Double>,
    calibrate: bool,
    angles: Angles<L, A, C, S, K>,
    divide: V,
    op: Ring,
) -> bool {
    let anchored = !(rep is Global3D);
    &&& is(
        &slopes.h_f,
        3,
        rep.dim(),
        by_parameters(rep, anchor, calib, p, angles, divide, op),
    )
    &&& slopes.anchor is Some <==> anchored
    &&& slopes.anchor matches Some(m) ==> is(&m, 3, 6, by_anchor(anchor, calib, p, op))
    &&& slopes.calib is Some <==> anchored && calibrate
    &&& slopes.calib matches Some(m) ==> is(&m, 3, 6, by_calibration(anchor, calib, p, op))
}

/// The identity of three rows and columns.
fn identity() -> (m: Matrix)
    ensures
        is(&m, 3, 3, unit()),
{
    let (one, zero) = (Double::one(), Double::zero());
    square_of(&[one, zero, zero, zero, one, zero, zero, zero, one])
}

/// How a feature's point in the world depends on what it is written down with, on
/// its anchor and on the anchor's camera. `p` is the point in the anchor camera.
pub fn point_slopes<
    L: Fn([Double; 3]) -> Double,
    A: Fn(Double, Double) -> Double,
    C: Fn(Double) -> Double,
    S: Fn(Double) -> Double,
    K: Fn(Double) -> Double,
    P: Fn(Double, Double) -> Double,
    T: Fn(Double, Double) -> Double,
    V: Fn(Double, Double) -> Double,
>(
    rep: FeatRepresentation,
    anchor: &PoseValue,
    calib: &PoseValue,
    p: &[Double; 3],
    calibrate: bool,
    angles: &Angles<L, A, C, S, K>,
    plus: &P,
    times: &T,
    divide: &V,
) -> (slopes: PointSlopes)
    requires
        angles.wf(),
        binary(*plus),
        binary(*times),
        binary(*divide),
    ensures
        are_slopes(
            &slopes,
            rep,
            *anchor,
            *calib,
            p@,
            calibrate,
            *angles,
            *divide,
            ring(*plus, *times),
        ),
{
    if rep == FeatRepresentation::Global3D {
        return PointSlopes { h_f: identity(), anchor: None, calib: None };
    }
    let ghost op = ring(*plus, *times);
    let ghost turnf = to_world(*anchor, *calib, op);
    let turn = turn_to_world(anchor, calib, plus, times);
    let off = minus3(p, &calib.pos, plus, times);
    let back = flip(&calib.rot);
    let lever = carry(
        &back,
        &off,
        Ghost(flipped(three_by_three(calib.rot@))),
        plus,
        times,
    );
    let out = negate(&flip(&anchor.rot));
    let ghost outf = negation(flipped(three_by_three(anchor.rot@)));
    assert(is(&out, 3, 3, outf));
    let k = skew(&lever);
    let swing = multiply(&out, &k, plus, times);
    proof {
        lemma_product(&swing, &out, &k, outf, cross(lever@), op);
    }
    let still = identity();
    let own = join(&swing, &still);
    proof {
        lemma_joined(&own, &swing, &still, product(outf, cross(lever@), op, 3), unit());
    }
    let by_calib = if calibrate {
        let away = negate(&turn);
        assert(is(&away, 3, 3, negation(turnf)));
        let k = skew(&off);
        let swing = multiply(&away, &k, plus, times);
        let m = join(&swing, &away);
        proof {
            lemma_product(&swing, &away, &k, negation(turnf), cross(off@), op);
            lemma_joined(
                &m,
                &swing,
                &away,
                product(negation(turnf), cross(off@), op, 3),
                negation(turnf),
            );
        }
        Some(m)
    } else {
        None
    };
    let h_f = if !rep.is_relative() {
        identity()
    } else if matches!(rep, FeatRepresentation::Anchored3D) {
        turn
    } else {
        let d = slope_by_parameters(rep, p, angles, plus, times, divide);
        let m = multiply(&turn, &d, plus, times);
        proof {
            lemma_product(
                &m,
                &turn,
                &d,
                turnf,
                parameter_slope(rep, p@, *angles, *divide, op),
                op,
            );
        }
        m
    };
    PointSlopes { h_f, anchor: Some(own), calib: by_calib }
}

/// The pose of an anchor at which derivatives are taken, and the feature's point in
/// that anchor: the current ones, or with first estimates those that leave the
/// point of the world where it is.
pub open spec fn linearized(
    anchor: PoseValue,
    anchor_fej: PoseValue,
    calib: PoseValue,
    p: Seq<Double>,
    fej: bool,
    op: Ring,
) -> (PoseValue, Seq<Double>) {
    if fej {
        (
            anchor_fej,
            anchor_point(anchor_fej, calib, world_point(anchor, calib, p, op), op),
        )
    } else {
        (anchor, p)
    }
}

/// The clone at a time, as it is.
pub open spec fn clone_value(st: &State, values: &Estimates, t: Double) -> PoseValue {
    values.clones@[clone_at(st.clones_imu@, t, 0)].0
}

/// The place of a variable among those that a feature touches.
pub open spec fn place_among(st: &State, feature: &Feature, rep: FeatRepresentation, run: Run) -> int {
    distinct(touched_runs(st, feature, rep)).index_of(run)
}

/// Where measurement `m` of track `k` is made from.
pub open spec fn vantage_of(
    st: &State,
    feature: &Feature,
    rep: FeatRepresentation,
    values: &Estimates,
    k: int,
    m: int,
) -> Vantage {
    let track = feature.tracks@[k];
    let t = track.timestamps@[m];
    let both = values.clones@[clone_at(st.clones_imu@, t, 0)];
    Vantage {
        cam: track.cam_id,
        calib: values.calibs@[track.cam_id as int],
        clone: both.0,
        clone_fej: if st.options.do_fej {
            both.1
        } else {
            both.0
        },
        place: place_among(st, feature, rep, clone_run(st, t)) as usize,
        calib_place: if st.options.do_calib_camera_pose {
            Some(place_among(st, feature, rep, camera_run(st, track.cam_id as int)) as usize)
        } else {
            None
        },
    }
}

/// The run of a camera's pose.
pub open spec fn camera_run(st: &State, cam: int) -> Run {
    (st.calib_imu_to_cam@[cam].id, 6usize)
}

/// The entry for measurement `m` of track `k` in a list by tracks.
pub open spec fn entry_of(
    entries: Seq<MeasurementEntry>,
    tracks: Seq<CameraTrack>,
    k: int,
    m: int,
) -> MeasurementEntry {
    entries[measured(tracks, k) + m]
}

/// Whether the first `n` entries are those of a feature's measurements.
pub open spec fn are_entries<
    D: Fn(usize, [Double; 2]) -> [Double; 2],
    J: Fn(usize, [Double; 2]) -> [Double; 4],
    V: Fn(Double, Double) -> Double,
>(
    entries: Seq<MeasurementEntry>,
    n: int,
    st: &State,
    feature: &Feature,
    rep: FeatRepresentation,
    values: &Estimates,
    p: Seq<Double>,
    param: &Matrix,
    through: Seq<PlacedBlock>,
    distort: D,
    slope: J,
    divide: V,
    op: Ring,
) -> bool {
    forall|k: int, m: int|
        0 <= k < feature.tracks@.len() && 0 <= m < feature.tracks@[k].timestamps@.len() && measured(
            feature.tracks@,
            k,
        ) + m < n ==> is_entry(
            &#[trigger] entry_of(entries, feature.tracks@, k, m),
            vantage_of(st, feature, rep, values, k, m),
            feature.tracks@[k].uvs@[m]@,
            p,
            param,
            through,
            distort,
            slope,
            divide,
            op,
        )
}

/// Whether a derivative and blocks are those of a feature's point in the world: by
/// the feature, by its anchor, and by the anchor's camera where that is calibrated.
pub open spec fn is_tied<
    L: Fn([Double; 3]) -> Double,
    A: Fn(Double, Double) -> Double,
    C: Fn(Double) -> Double,
    S: Fn(Double) -> Double,
    K: Fn(Double) -> Double,
    V: Fn(Double, Double) -> Double,
>(
    param: &Matrix,
    through: Seq<PlacedBlock>,
    st: &State,
    feature: &Feature,
    rep: FeatRepresentation,
    values: &Estimates,
    angles: Angles<L, A, C, S, K>,
    divide: V,
    op: Ring,
) -> bool {
    let t = feature.anchor_clone_timestamp;
    let cam = feature.anchor_cam_id as int;
    let anchor = clone_value(st, values, t);
    let calib = values.calibs@[cam];
    let p = feature.p_fin_a@;
    let n = if !rep.spec_is_relative() {
        0int
    } else if st.options.do_calib_camera_pose {
        2
    } else {
        1
    };
    &&& is(param, 3, rep.dim(), by_parameters(rep, anchor, calib, p, angles, divide, op))
    &&& through.len() == n
    &&& n >= 1 ==> through[0].place == place_among(st, feature, rep, clone_run(st, t)) && is(
        &through[0].block,
        3,
        6,
        by_anchor(anchor, calib, p, op),
    )
    &&& n >= 2 ==> through[1].place == place_among(st, feature, rep, camera_run(st, cam)) && is(
        &through[1].block,
        3,
        6,
        by_calibration(anchor, calib, p, op),
    )
}

/// A feature's point in the world: given, or that of its point in the anchor.
pub open spec fn feature_point(
    st: &State,
    feature: &Feature,
    rep: FeatRepresentation,
    values: &Estimates,
    op: Ring,
) -> Seq<Double> {
    if rep.spec_is_relative() {
        world_point(
            clone_value(st, values, feature.anchor_clone_timestamp),
            values.calibs@[feature.anchor_cam_id as int],
            feature.p_fin_a@,
            op,
        )
    } else {
        feature.p_fin_g@
    }
}

/// Whether a system is put together from what the measurements of a feature say.
pub open spec fn composed<
    D: Fn(usize, [Double; 2]) -> [Double; 2],
    J: Fn(usize, [Double; 2]) -> [Double; 4],
    L: Fn([Double; 3]) -> Double,
    A: Fn(Double, Double) -> Double,
    C: Fn(Double) -> Double,
    S: Fn(Double) -> Double,
    K: Fn(Double) -> Double,
    V: Fn(Double, Double) -> Double,
>(
    jac: &FeatureJacobian,
    entries: Seq<MeasurementEntry>,
    param: &Matrix,
    through: Seq<PlacedBlock>,
    st: &State,
    feature: &Feature,
    rep: FeatRepresentation,
    values: &Estimates,
    distort: D,
    slope: J,
    angles: Angles<L, A, C, S, K>,
    divide: V,
    op: Ring,
) -> bool {
    &&& entries.len() == feature.spec_measurements()
    &&& is_tied(param, through, st, feature, rep, values, angles, divide, op)
    &&& are_entries(
        entries,
        entries.len() as int,
        st,
        feature,
        rep,
        values,
        feature_point(st, feature, rep, values, op),
        param,
        through,
        distort,
        slope,
        divide,
        op,
    )
    &&& assembled(jac, entries, rep.dim())
}

/// Whether a system is the residual system of a feature: over the variables that
/// its measurements touch, and put together from what they say.
pub open spec fn is_feature_jacobian<
    D: Fn(usize, [Double; 2]) -> [Double; 2],
    J: Fn(usize, [Double; 2]) -> [Double; 4],
    L: Fn([Double; 3]) -> Double,
    A: Fn(Double, Double) -> Double,
    C: Fn(Double) -> Double,
    S: Fn(Double) -> Double,
    K: Fn(Double) -> Double,
    V: Fn(Double, Double) -> Double,
>(
    jac: &FeatureJacobian,
    st: &State,
    feature: &Feature,
    rep: FeatRepresentation,
    values: &Estimates,
    distort: D,
    slope: J,
    angles: Angles<L, A, C, S, K>,
    divide: V,
    op: Ring,
) -> bool {
    &&& jac.x_order@ == distinct(touched_runs(st, feature, rep))
    &&& exists|entries: Seq<MeasurementEntry>, param: Matrix, through: Seq<PlacedBlock>|
        #[trigger]
        composed(
            jac,
            entries,
            &param,
            through,
            st,
            feature,
            rep,
            values,
            distort,
            slope,
            angles,
            divide,
            op,
        )
}

/// How a feature's point depends on the feature, on its anchor and on the anchor's
/// camera.
fn tie_point<
    L: Fn([Double; 3]) -> Double,
    A: Fn(Double, Double) -> Double,
    C: Fn(Double) -> Double,
    S: Fn(Double) -> Double,
    K: Fn(Double) -> Double,
    P: Fn(Double, Double) -> Double,
    T: Fn(Double, Double) -> Double,
    V: Fn(Double, Double) -> Double,
>(
    state: &State,
    feature: &Feature,
    rep: FeatRepresentation,
    values: &Estimates,
    plan: &JacobianPlan,
    angles: &Angles<L, A, C, S, K>,
    plus: &P,
    times: &T,
    divide: &V,
) -> (tied: ([Double; 3], Matrix, Vec<PlacedBlock>))
    requires
        measurable(state, feature, rep),
        values.fits(state),
        lays_out(plan, state, feature, rep),
        angles.wf(),
        binary(*plus),
        binary(*times),
        binary(*divide),
    ensures
        tied.0@ == feature_point(state, feature, rep, values, ring(*plus, *times)),
        is_tied(
            &tied.1,
            tied.2@,
            state,
            feature,
            rep,
            values,
            *angles,
            *divide,
            ring(*plus, *times),
        ),
        forall|k: int|
            0 <= k < tied.2@.len() ==> (#[trigger] tied.2@[k]).place < plan.x_order@.len()
                && plan.x_order@[tied.2@[k].place as int].1 == 6 && tied.2@[k].block.shaped(3, 6),
{
    let mut through: Vec<PlacedBlock> = Vec::new();
    match plan.anchor {
        None => (feature.p_fin_g, identity(), through),
        Some(a) => {
            let t = feature.anchor_clone_timestamp;
            let cam = feature.anchor_cam_id as usize;
            let (anchor, _) = &values.clones[a.clone];
            let calib = &values.calibs[cam];
            let p = from_anchor(anchor, calib, &feature.p_fin_a, plus, times);
            let calibrate = state.options.do_calib_camera_pose;
            let slopes = point_slopes(
                rep,
                anchor,
                calib,
                &feature.p_fin_a,
                calibrate,
                angles,
                plus,
                times,
                divide,
            );
            let run = (state.clones_imu[a.clone].1.id, 6usize);
            let ghost all = touched_runs(state, feature, rep);
            proof {
                let own = anchor_runs(state, feature, rep);
                lemma_distinct(all);
                assert(all[own.len() - 1] == own[own.len() - 1]);
                assert(own[own.len() - 1] == clone_run(state, t));
                assert(all.contains(clone_run(state, t)));
                if calibrate {
                    assert(all[0] == own[0]);
                    assert(own[0] == camera_run(state, cam as int));
                    assert(all.contains(camera_run(state, cam as int)));
                }
            }
            let place = find_run(&plan.x_order, run);
            proof {
                lemma_index_of(plan.x_order@, place as int);
            }
            if let Some(block) = slopes.anchor {
                through.push(PlacedBlock { place, block });
            }
            if let Some(block) = slopes.calib {
                let place = find_run(&plan.x_order, (state.calib_imu_to_cam[cam].id, 6usize));
                proof {
                    lemma_index_of(plan.x_order@, place as int);
                }
                through.push(PlacedBlock { place, block });
            }
            (p, slopes.h_f, through)
        },
    }
}

/// The residual system of a feature: what its measurements say, put together.
pub fn get_feature_jacobian_full<
    D: Fn(usize, [Double; 2]) -> [Double; 2],
    J: Fn(usize, [Double; 2]) -> [Double; 4],
    L: Fn([Double; 3]) -> Double,
    A: Fn(Double, Double) -> Double,
    C: Fn(Double) -> Double,
    S: Fn(Double) -> Double,
    K: Fn(Double) -> Double,
    P: Fn(Double, Double) -> Double,
    T: Fn(Double, Double) -> Double,
    V: Fn(Double, Double) -> Double,
>(
    state: &State,
    feature: &Feature,
    rep: FeatRepresentation,
    values: &Estimates,
    distort: &D,
    slope: &J,
    angles: &Angles<L, A, C, S, K>,
    plus: &P,
    times: &T,
    divide: &V,
) -> (jac: FeatureJacobian)
    requires
        measurable(state, feature, rep),
        feature.has_pixels(),
        values.fits(state),
        system_fits(state, feature, rep),
        answers(*distort),
        answers(*slope),
        angles.wf(),
        binary(*plus),
        binary(*times),
        binary(*divide),
    ensures
        is_feature_jacobian(
            &jac,
            state,
            feature,
            rep,
            values,
            *distort,
            *slope,
            *angles,
            *divide,
            ring(*plus, *times),
        ),
{
    let ghost op = ring(*plus, *times);
    let ghost all = touched_runs(state, feature, rep);
    let ghost tracks = feature.tracks@;
    let ghost total = feature.spec_measurements();
    proof {
        lemma_measured_monotonic(tracks, 0, tracks.len() as int);
    }
    let plan = plan_feature_jacobian(state, feature, rep);
    let ghost order = plan.x_order@;
    let (p, param, through) = tie_point(
        state,
        feature,
        rep,
        values,
        &plan,
        angles,
        plus,
        times,
        divide,
    );
    proof {
        lemma_distinct(all);
    }
    let mut entries: Vec<MeasurementEntry> = Vec::new();
    proof {
        assert forall|a: int| 0 <= a < tracks.len() implies 0 <= #[trigger] measured(tracks, a) by {
            lemma_measured_monotonic(tracks, 0, a);
        }
    }
    let mut k: usize = 0;
    while k < feature.tracks.len()
        invariant
            k <= tracks.len(),
            tracks == feature.tracks@,
            total == feature.spec_measurements(),
            total == measured(tracks, tracks.len() as int),
            op == ring(*plus, *times),
            order == plan.x_order@,
            order == distinct(touched_runs(state, feature, rep)),
            order.no_duplicates(),
            measurable(state, feature, rep),
            values.fits(state),
            feature.has_pixels(),
            lays_out(&plan, state, feature, rep),
            answers(*distort),
            answers(*slope),
            binary(*plus),
            binary(*times),
            binary(*divide),
            param.shaped(3, rep.dim()),
            forall|q: int|
                0 <= q < through@.len() ==> (#[trigger] through@[q]).place < order.len()
                    && order[through@[q].place as int].1 == 6 && through@[q].block.shaped(3, 6),
            entries@.len() == measured(tracks, k as int),
            forall|c: int|
                0 <= c < entries@.len() ==> #[trigger] entry_fits(&entries@[c], order, rep.dim()),
            are_entries(
                entries@,
                entries@.len() as int,
                state,
                feature,
                rep,
                values,
                p@,
                &param,
                through@,
                *distort,
                *slope,
                *divide,
                op,
            ),
        decreases tracks.len() - k,
    {
        let track = &feature.tracks[k];
        proof {
            lemma_measured_monotonic(tracks, k as int, tracks.len() as int);
            lemma_touched(state, feature, rep, k as int);
        }
        let mut m: usize = 0;
        while m < track.timestamps.len()
            invariant
                k < tracks.len(),
                *track == tracks[k as int],
                m <= track.timestamps@.len(),
                measured(tracks, k as int) + track.timestamps@.len() <= total,
                0 <= measured(tracks, k as int),
                forall|i: int|
                    0 <= i < track.timestamps@.len() ==> order.contains(
                        clone_run(state, #[trigger] track.timestamps@[i]),
                    ),
                state.options.do_calib_camera_pose ==> order.contains(
                    camera_run(state, track.cam_id as int),
                ),
                tracks == feature.tracks@,
                total == feature.spec_measurements(),
                op == ring(*plus, *times),
                order == plan.x_order@,
                order == distinct(touched_runs(state, feature, rep)),
                order.no_duplicates(),
                measurable(state, feature, rep),
                values.fits(state),
            feature.has_pixels(),
                lays_out(&plan, state, feature, rep),
                answers(*distort),
                answers(*slope),
                binary(*plus),
                binary(*times),
                binary(*divide),
                param.shaped(3, rep.dim()),
                forall|q: int|
                0 <= q < through@.len() ==> (#[trigger] through@[q]).place < order.len()
                    && order[through@[q].place as int].1 == 6 && through@[q].block.shaped(3, 6),
                entries@.len() == measured(tracks, k as int) + m,
                forall|c: int|
                    0 <= c < entries@.len() ==> #[trigger] entry_fits(
                        &entries@[c],
                        order,
                        rep.dim(),
                    ),
                are_entries(
                    entries@,
                    entries@.len() as int,
                    state,
                    feature,
                    rep,
                    values,
                    p@,
                    &param,
                    through@,
                    *distort,
                    *slope,
                    *divide,
                    op,
                ),
            decreases track.timestamps@.len() - m,
        {
            let c = entries.len();
            assert(clone_exists(state, tracks[k as int].timestamps@[m as int]));
            assert(planned(
                plan_of(plan.measurements@, tracks, k as int, m as int),
                state,
                feature,
                order,
                k as int,
                m as int,
            ));
            let place_in_window = plan.measurements[c].clone;
            let run = (state.clones_imu[place_in_window].1.id, 6usize);
            assert(run == clone_run(state, track.timestamps@[m as int]));
            let place = find_run(&plan.x_order, run);
            proof {
                lemma_index_of(order, place as int);
            }
            let calib_place = if state.options.do_calib_camera_pose {
                let run = (state.calib_imu_to_cam[track.cam_id].id, 6usize);
                assert(run == camera_run(state, track.cam_id as int));
                let c = find_run(&plan.x_order, run);
                proof {
                    lemma_index_of(order, c as int);
                }
                Some(c)
            } else {
                None
            };
            let (clone, fej) = values.clones[place_in_window];
            let at = Vantage {
                cam: track.cam_id,
                calib: values.calibs[track.cam_id],
                clone,
                clone_fej: if state.options.do_fej {
                    fej
                } else {
                    clone
                },
                place,
                calib_place,
            };
            assert(at == vantage_of(state, feature, rep, values, k as int, m as int));
            let entry = measurement_entry(
                &at,
                &track.uvs[m],
                &p,
                &param,
                &through,
                &plan.x_order,
                distort,
                slope,
                plus,
                times,
                divide,
            );
            assert(entry_fits(&entry, order, rep.dim()));
            let ghost before = entries@;
            entries.push(entry);
            proof {
                assert forall|a: int, b: int|
                    0 <= a < tracks.len() && 0 <= b < tracks[a].timestamps@.len() && measured(tracks, a)
                        + b < entries@.len() implies is_entry(
                    &#[trigger] entry_of(entries@, tracks, a, b),
                    vantage_of(state, feature, rep, values, a, b),
                    tracks[a].uvs@[b]@,
                    p@,
                    &param,
                    through@,
                    *distort,
                    *slope,
                    *divide,
                    op,
                ) by {
                    lemma_measured_monotonic(tracks, 0, a);
                    if measured(tracks, a) + b < before.len() {
                        assert(entry_of(entries@, tracks, a, b) == entry_of(before, tracks, a, b));
                    } else {
                        if a < k {
                            lemma_measured_monotonic(tracks, a, k as int);
                        } else if a > k {
                            lemma_measured_monotonic(tracks, k as int, a);
                        }
                        assert(a == k && b == m);
                    }
                }
            }
            m += 1;
        }
        k += 1;
    }
    let ghost parts = entries@;
    proof {
        lemma_touched_sizes(state, feature, rep);
        assert forall|i: int| 0 <= i < order.len() implies (#[trigger] order[i]).1 <= 8 by {
            assert(order.contains(order[i]));
            assert(all.contains(order[i]));
        }
        lemma_columns_bounded(order, order.len() as int);
        assert(2 * total * column(order, order.len() as int) <= 2 * total * (8 * all.len()))
            by (nonlinear_arith)
            requires
                0 <= total,
                column(order, order.len() as int) <= 8 * all.len(),
        ;
        assert(2 * total * rep.dim() <= 6 * total) by (nonlinear_arith)
            requires
                0 <= total,
                rep.dim() <= 3,
        ;
    }
    let jac = assemble(plan.x_order, plan.hf_cols, &entries);
    proof {
        assert(composed(
            &jac,
            parts,
            &param,
            through@,
            state,
            feature,
            rep,
            values,
            *distort,
            *slope,
            *angles,
            *divide,
            op,
        ));
    }
    jac
}

/// How a feature's point in the world depends on the feature, and on the variables
/// that its anchor brings in.
pub type ReprJacobian = (Matrix, Vec<(i32, usize, Matrix)>);

/// The variables by which a feature's point in the world depends on its anchor: the
/// anchor clone, then the camera's pose where it is calibrated. A feature in
/// global coordinates depends on none.
pub open spec fn representation_runs(st: &State, cam: int, t: Double, rep: FeatRepresentation) -> Seq<
    Run,
> {
    if rep is Global3D {
        seq![]
    } else {
        anchor_blocks(st, cam, t)
    }
}

/// Whether the derivatives are those of a feature that is anchored to a camera at a
/// time, at the first estimates where the options ask for them, with a block for
/// each variable of its anchor.
pub open spec fn is_representation<
    L: Fn([Double; 3]) -> Double,
    A: Fn(Double, Double) -> Double,
    C: Fn(Double) -> Double,
    S: Fn(Double) -> Double,
    K: Fn(Double) -> Double,
    V: Fn(Double, Double) -> Double,
>(
    repr: &ReprJacobian,
    st: &State,
    cam: int,
    t: Double,
    rep: FeatRepresentation,
    values: &Estimates,
    p_a: Seq<Double>,
    angles: Angles<L, A, C, S, K>,
    divide: V,
    op: Ring,
) -> bool {
    let runs = representation_runs(st, cam, t, rep);
    let both = values.clones@[clone_at(st.clones_imu@, t, 0)];
    let calib = values.calibs@[cam];
    let at = linearized(both.0, both.1, calib, p_a, st.options.do_fej, op);
    &&& is(&repr.0, 3, rep.dim(), by_parameters(rep, at.0, calib, at.1, angles, divide, op))
    &&& repr.1@.len() == runs.len()
    &&& forall|i: int|
        0 <= i < runs.len() ==> {
            let block = #[trigger] repr.1@[i];
            &&& (block.0, block.1) == runs[i]
            &&& is(
                &block.2,
                3,
                6,
                if i == 0 {
                    by_anchor(at.0, calib, at.1, op)
                } else {
                    by_calibration(at.0, calib, at.1, op)
                },
            )
        }
}

/// How a feature's point in the world depends on the feature, and on the variables
/// that its anchor brings in: the anchor clone, then the camera's pose where it is
/// calibrated. `p_a` is the feature's point in the anchor camera.
pub fn get_feature_jacobian_representation<
    L: Fn([Double; 3]) -> Double,
    A: Fn(Double, Double) -> Double,
    C: Fn(Double) -> Double,
    S: Fn(Double) -> Double,
    K: Fn(Double) -> Double,
    P: Fn(Double, Double) -> Double,
    T: Fn(Double, Double) -> Double,
    V: Fn(Double, Double) -> Double,
>(
    state: &State,
    anchor_cam_id: i32,
    anchor_clone_timestamp: Double,
    rep: FeatRepresentation,
    values: &Estimates,
    p_a: &[Double; 3],
    angles: &Angles<L, A, C, S, K>,
    plus: &P,
    times: &T,
    divide: &V,
) -> (repr: ReprJacobian)
    requires
        rep is Global3D || {
            &&& clone_exists(state, anchor_clone_timestamp)
            &&& 0 <= anchor_cam_id < state.calib_imu_to_cam@.len()
            &&& values.fits(state)
        },
        angles.wf(),
        binary(*plus),
        binary(*times),
        binary(*divide),
    ensures
        is_representation(
            &repr,
            state,
            anchor_cam_id as int,
            anchor_clone_timestamp,
            rep,
            values,
            p_a@,
            *angles,
            *divide,
            ring(*plus, *times),
        ),
{
    let mut blocks: Vec<(i32, usize, Matrix)> = Vec::new();
    if rep == FeatRepresentation::Global3D {
        return (identity(), blocks);
    }
    match find_clone(state, anchor_clone_timestamp) {
        None => {
            assert(false);
            (identity(), blocks)
        },
        Some(place) => {
            let cam = anchor_cam_id as usize;
            let (anchor, first) = &values.clones[place];
            let calib = &values.calibs[cam];
            let calibrate = state.options.do_calib_camera_pose;
            let slopes = if state.options.do_fej {
                let best = from_anchor(anchor, calib, p_a, plus, times);
                let q = into_anchor(first, calib, &best, plus, times);
                point_slopes(rep, first, calib, &q, calibrate, angles, plus, times, divide)
            } else {
                point_slopes(rep, anchor, calib, p_a, calibrate, angles, plus, times, divide)
            };
            if let Some(block) = slopes.anchor {
                blocks.push((state.clones_imu[place].1.id, 6, block));
            }
            if let Some(block) = slopes.calib {
                blocks.push((state.calib_imu_to_cam[cam].id, 6, block));
            }
            (slopes.h_f, blocks)
        },
    }
}

/// A feature written down in the world depends on no pose, and its numbers are its
/// point.
pub proof fn law_global_features_depend_on_no_pose<
    L: Fn([Double; 3]) -> Double,
    A: Fn(Double, Double) -> Double,
    C: Fn(Double) -> Double,
    S: Fn(Double) -> Double,
    K: Fn(Double) -> Double,
    V: Fn(Double, Double) -> Double,
>(
    repr: &ReprJacobian,
    st: &State,
    cam: int,
    t: Double,
    values: &Estimates,
    p_a: Seq<Double>,
    angles: Angles<L, A, C, S, K>,
    divide: V,
    op: Ring,
)
    requires
        is_representation(
            repr,
            st,
            cam,
            t,
            FeatRepresentation::Global3D,
            values,
            p_a,
            angles,
            divide,
            op,
        ),
    ensures
        repr.1@.len() == 0,
        is(&repr.0, 3, 3, unit()),
{
}

/// First estimates change the derivatives of a measurement, never its residual.
pub proof fn law_first_estimates_keep_residuals<
    D: Fn(usize, [Double; 2]) -> [Double; 2],
    J: Fn(usize, [Double; 2]) -> [Double; 4],
    V: Fn(Double, Double) -> Double,
>(
    a: &MeasurementEntry,
    b: &MeasurementEntry,
    at: Vantage,
    other: PoseValue,
    uv: Seq<Double>,
    p: Seq<Double>,
    param: &Matrix,
    through: Seq<PlacedBlock>,
    distort: D,
    slope: J,
    divide: V,
    op: Ring,
)
    requires
        is_entry(a, at, uv, p, param, through, distort, slope, divide, op),
        is_entry(
            b,
            (Vantage { clone_fej: other, ..at }),
            uv,
            p,
            param,
            through,
            distort,
            slope,
            divide,
            op,
        ),
    ensures
        a.res@ == b.res@,
{
}

} // verus!
