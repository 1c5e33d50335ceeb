//! The sparse direct visual measurement.
//!
//! Patches of visual points are compared with the image around the pixels onto
//! which the points project. Which pixels are sampled, which points and pixels
//! count, where their rows stand and how the levels of a pyramid follow each
//! other is decided here.

use vstd::prelude::*;

use crate::algebra::{
    apply_inverse, dot, dot_lists, entries, inverse_of, inverts, is, lemma_dot_same, lemma_product,
    list_of, multiply, product, ring, square_of, unit, Ring,
};
use crate::arith::{
    apply_count, apply_number, apply_one, apply_two, binary, counted, counts, number_of, numbers,
    of_one, of_two, unary,
};
use crate::double::{Double, ONE_BITS};
use crate::matrix::Matrix;
use crate::void_esikf::update::{column, informative, rows_of, sums, weighted, Information};
use crate::void_map::image_patch::{grey, grey_at, Corners};
use crate::void_measure::options::VisualOptions;
use crate::void_measure::plane_update::{effective, effective_count, ResidualRows, ZERO_INFO};
use crate::void_types::so3::{skew, skew_entry};
use crate::void_types::state::DIM_STATE;
use crate::void_types::visual::{clamp_index, GrayImage, Intrinsics};

verus! {

/// A denominator below this makes no warp: 1e-12.
pub const WARP_LIMIT: u64 = 0x3D71_9799_812D_EA11;

/// How many entries of the error a pixel depends on.
pub const PIXEL_DIM: usize = 7;

/// The distance of a plane along its normal, as the first camera sees it.
pub open spec fn plane_depth(normal: Seq<Double>, p: Seq<Double>, op: Ring) -> Double {
    dot(list_of(normal), list_of(p), op, 3)
}

/// The map of a plane's points from one view to another: the turn, and the way
/// along the plane's normal.
pub open spec fn plane_map<V: Fn(Double, Double) -> Double>(
    rot: Seq<Double>,
    way: Seq<Double>,
    normal: Seq<Double>,
    denom: Double,
    divide: V,
    op: Ring,
) -> spec_fn(int, int) -> Double {
    |i: int, j: int|
        (op.plus)(rot[3 * i + j], (op.times)(way[i], of_two(divide, normal[j], denom)))
}

/// The inverse of a camera matrix, or the identity where it has none.
pub open spec fn unprojection<I: Fn(&Matrix) -> Option<Matrix>>(k: Intrinsics, invert: I) -> spec_fn(
    int,
    int,
) -> Double {
    match inverse_of(invert, 3, |i: int, j: int| k.entry(i, j)) {
        Some(m) => entries(&m),
        None => unit(),
    }
}

/// The affine map between two views of a plane, row by row: the camera's matrix
/// about the map of the plane's points, or the identity where the plane passes
/// through the first camera.
pub open spec fn warp_of<I: Fn(&Matrix) -> Option<Matrix>, V: Fn(Double, Double) -> Double>(
    rot: Seq<Double>,
    way: Seq<Double>,
    normal: Seq<Double>,
    p: Seq<Double>,
    k: Intrinsics,
    invert: I,
    divide: V,
    op: Ring,
) -> Seq<Double> {
    let denom = plane_depth(normal, p, op);
    if denom.spec_abs().spec_lt(Double { bits: WARP_LIMIT }) {
        seq![
            Double { bits: ONE_BITS },
            Double { bits: 0 },
            Double { bits: 0 },
            Double { bits: ONE_BITS },
        ]
    } else {
        let inner = plane_map(rot, way, normal, denom, divide, op);
        let a = product(
            product(|i: int, j: int| k.entry(i, j), inner, op, 3),
            unprojection(k, invert),
            op,
            3,
        );
        seq![a(0, 0), a(0, 1), a(1, 0), a(1, 1)]
    }
}

/// The affine map between two views of a plane, row by row. `rot` and `way` lead
/// from the first camera to the second, `normal` and `p` are the plane's normal and
/// a point of it, as the first camera sees them.
pub fn affine_warp<
    I: Fn(&Matrix) -> Option<Matrix>,
    P: Fn(Double, Double) -> Double,
    T: Fn(Double, Double) -> Double,
    V: Fn(Double, Double) -> Double,
>(
    rot: &[Double; 9],
    way: &[Double; 3],
    normal: &[Double; 3],
    p: &[Double; 3],
    intrinsics: &Intrinsics,
    invert: &I,
    plus: &P,
    times: &T,
    divide: &V,
) -> (a: [Double; 4])
    requires
        inverts(*invert),
        binary(*plus),
        binary(*times),
        binary(*divide),
    ensures
        a@ == warp_of(
            rot@,
            way@,
            normal@,
            p@,
            *intrinsics,
            *invert,
            *divide,
            ring(*plus, *times),
        ),
{
    let ghost op = ring(*plus, *times);
    let ghost kf = |i: int, j: int| intrinsics.entry(i, j);
    let (one, zero) = (Double::one(), Double::zero());
    let n: Vec<Double> = vec![normal[0], normal[1], normal[2]];
    let q: Vec<Double> = vec![p[0], p[1], p[2]];
    let denom = dot_lists(&n, &q, plus, times);
    proof {
        lemma_dot_same(list_of(n@), list_of(q@), list_of(normal@), list_of(p@), op, 3);
    }
    if denom.abs().lt(Double { bits: WARP_LIMIT }) {
        let a = [one, zero, zero, one];
        assert(a@ =~= warp_of(rot@, way@, normal@, p@, *intrinsics, *invert, *divide, op));
        return a;
    }
    let k = intrinsics.camera_matrix();
    assert(is(&k, 3, 3, kf));
    let ghost back = unprojection(*intrinsics, *invert);
    let k_inv = match apply_inverse(&k, invert, Ghost(kf)) {
        Some(m) => m,
        None => square_of(&[one, zero, zero, zero, one, zero, zero, zero, one]),
    };
    assert(is(&k_inv, 3, 3, back));
    let s = [
        apply_two(divide, normal[0], denom),
        apply_two(divide, normal[1], denom),
        apply_two(divide, normal[2], denom),
    ];
    let v = [
        apply_two(plus, rot[0], apply_two(times, way[0], s[0])),
        apply_two(plus, rot[1], apply_two(times, way[0], s[1])),
        apply_two(plus, rot[2], apply_two(times, way[0], s[2])),
        apply_two(plus, rot[3], apply_two(times, way[1], s[0])),
        apply_two(plus, rot[4], apply_two(times, way[1], s[1])),
        apply_two(plus, rot[5], apply_two(times, way[1], s[2])),
        apply_two(plus, rot[6], apply_two(times, way[2], s[0])),
        apply_two(plus, rot[7], apply_two(times, way[2], s[1])),
        apply_two(plus, rot[8], apply_two(times, way[2], s[2])),
    ];
    let inner = square_of(&v);
    let ghost inf = plane_map(rot@, way@, normal@, denom, *divide, op);
    assert(is(&inner, 3, 3, inf)) by {
        assert forall|i: int, j: int| inner.has(i, j) implies #[trigger] inner.at(i, j) == inf(i, j) by {
            assert(inner.at(i, j) == v@[3 * i + j]);
            assert(i == 0 || i == 1 || i == 2);
            assert(j == 0 || j == 1 || j == 2);
        }
    }
    let half = multiply(&k, &inner, plus, times);
    let whole = multiply(&half, &k_inv, plus, times);
    proof {
        lemma_product(&half, &k, &inner, kf, inf, op);
        lemma_product(&whole, &half, &k_inv, product(kf, inf, op, 3), back, op);
        assert(whole.has(0, 0) && whole.has(0, 1) && whole.has(1, 0) && whole.has(1, 1));
    }
    let a = [whole.get(0, 0), whole.get(0, 1), whole.get(1, 0), whole.get(1, 1)];
    assert(a@ =~= warp_of(rot@, way@, normal@, p@, *intrinsics, *invert, *divide, op));
    a
}

/// A place between pixels: the pixel to its upper left and the four around it.
#[derive(Clone, Copy, Debug, PartialEq, Eq, Structural)]
pub struct BilinearSample {
    /// The column to the left.
    pub x0: usize,
    /// The row above.
    pub y0: usize,
    /// The four pixels.
    pub corners: Corners,
}

/// Whether a coordinate lies outside `0 ..= n - 1`.
pub open spec fn beyond(u: Double, n: int) -> bool {
    u.spec_lt(Double { bits: 0 }) || (n > 0 && u.exceeds(n - 1)) || (n == 0 && !u.spec_is_nan())
}

/// The next index, if there is one.
pub open spec fn next_index(k: int, n: int) -> int {
    if k + 1 < n {
        k + 1
    } else {
        n - 1
    }
}

/// The pixels around a place.
pub open spec fn corners_around(image: &GrayImage, x0: int, y0: int) -> Corners {
    let x1 = next_index(x0, image.spec_width() as int);
    let y1 = next_index(y0, image.spec_height() as int);
    Corners {
        tl: grey_at(image, x0, y0),
        tr: grey_at(image, x1, y0),
        bl: grey_at(image, x0, y1),
        br: grey_at(image, x1, y1),
    }
}

/// Whether a coordinate lies outside `0 ..= n - 1`.
fn is_beyond(u: Double, n: usize) -> (b: bool)
    ensures
        b == beyond(u, n as int),
{
    if u.lt(Double::zero()) {
        return true;
    }
    if n == 0 {
        return !u.is_nan();
    }
    u.gt_integer(n - 1)
}

/// The value between four others, first along the rows: `fx` and `fy` say how far
/// it lies to the right and down.
pub open spec fn between_four(fx: Double, fy: Double, v: Seq<Double>, op: Ring) -> Double {
    let gx = (op.plus)(Double { bits: ONE_BITS }, fx.spec_neg());
    let gy = (op.plus)(Double { bits: ONE_BITS }, fy.spec_neg());
    (op.plus)(
        (op.plus)(
            (op.plus)(
                (op.times)((op.times)(gx, gy), v[0]),
                (op.times)((op.times)(fx, gy), v[1]),
            ),
            (op.times)((op.times)(gx, fy), v[2]),
        ),
        (op.times)((op.times)(fx, fy), v[3]),
    )
}

/// The value between four others: upper left, upper right, lower left, lower right.
pub fn interpolate<P: Fn(Double, Double) -> Double, T: Fn(Double, Double) -> Double>(
    fx: Double,
    fy: Double,
    values: &[Double; 4],
    plus: &P,
    times: &T,
) -> (v: Double)
    requires
        binary(*plus),
        binary(*times),
    ensures
        v == between_four(fx, fy, values@, ring(*plus, *times)),
{
    let gx = apply_two(plus, Double::one(), fx.neg());
    let gy = apply_two(plus, Double::one(), fy.neg());
    let a = apply_two(times, apply_two(times, gx, gy), values[0]);
    let b = apply_two(times, apply_two(times, fx, gy), values[1]);
    let c = apply_two(times, apply_two(times, gx, fy), values[2]);
    let d = apply_two(times, apply_two(times, fx, fy), values[3]);
    apply_two(plus, apply_two(plus, apply_two(plus, a, b), c), d)
}

/// How the pixel of a point changes with the point, row by row.
pub open spec fn pixel_by_point<T: Fn(Double, Double) -> Double, V: Fn(Double) -> Double>(
    p: Seq<Double>,
    k: Intrinsics,
    times: T,
    inverse: V,
) -> Seq<Double> {
    let z = of_one(inverse, p[2]);
    let z2 = of_two(times, z, z);
    let x = of_two(times, k.fx.spec_neg(), p[0]);
    let y = of_two(times, k.fy.spec_neg(), p[1]);
    seq![
        of_two(times, k.fx, z),
        Double { bits: 0 },
        of_two(times, x, z2),
        Double { bits: 0 },
        of_two(times, k.fy, z),
        of_two(times, y, z2),
    ]
}

/// The derivative of a pixel by its point, row by row.
pub fn projection_jacobian<T: Fn(Double, Double) -> Double, V: Fn(Double) -> Double>(
    p_cam: &[Double; 3],
    intrinsics: &Intrinsics,
    times: &T,
    inverse: &V,
) -> (j: [Double; 6])
    requires
        binary(*times),
        unary(*inverse),
    ensures
        j@ == pixel_by_point(p_cam@, *intrinsics, *times, *inverse),
{
    let z = apply_one(inverse, p_cam[2]);
    let z2 = apply_two(times, z, z);
    let x = apply_two(times, intrinsics.fx.neg(), p_cam[0]);
    let y = apply_two(times, intrinsics.fy.neg(), p_cam[1]);
    let j = [
        apply_two(times, intrinsics.fx, z),
        Double::zero(),
        apply_two(times, x, z2),
        Double::zero(),
        apply_two(times, intrinsics.fy, z),
        apply_two(times, y, z2),
    ];
    assert(j@ =~= seq![
        of_two(*times, intrinsics.fx, z),
        Double { bits: 0 },
        of_two(*times, x, z2),
        Double { bits: 0 },
        of_two(*times, intrinsics.fy, z),
        of_two(*times, y, z2),
    ]);
    j
}

/// Two numbers times a matrix of two rows and three columns.
pub open spec fn row_times(g: Seq<Double>, j: Seq<Double>, op: Ring) -> Seq<Double> {
    Seq::new(
        3,
        |c: int| (op.plus)((op.times)(g[0], j[c]), (op.times)(g[1], j[3 + c])),
    )
}

/// Three numbers times a matrix, three by three.
pub open spec fn row_through(r: Seq<Double>, m: spec_fn(int, int) -> Double, op: Ring) -> Seq<Double> {
    Seq::new(3, |c: int| dot(list_of(r), |k: int| m(k, c), op, 3))
}

/// Whether a pixel says the difference of exposed grey values, and how it changes with
/// orientation and position.
pub open spec fn is_term(
    term: PixelTerm,
    value: Double,
    reference: Double,
    exposure: Double,
    reference_exposure: Double,
    gradient: Seq<Double>,
    j: Seq<Double>,
    p_cam: Seq<Double>,
    r_cw: Seq<Double>,
    op: Ring,
) -> bool {
    let g = seq![(op.times)(gradient[0], exposure), (op.times)(gradient[1], exposure)];
    let slope = row_times(g, j, op);
    let back = Seq::new(3, |k: int| slope[k].spec_neg());
    &&& term.value == value
    &&& term.residual == (op.plus)(
        (op.times)(exposure, value),
        (op.times)(reference_exposure, reference).spec_neg(),
    )
    &&& term.rotation@ == row_through(slope, |k: int, c: int| skew_entry(p_cam, k, c), op)
    &&& term.position@ == row_through(back, |k: int, c: int| r_cw[3 * k + c], op)
}

/// What a pixel says: the difference of exposed grey values, and how it changes
/// with orientation and position. `gradient` is the slope of the image there,
/// `j` the derivative of the pixel by its point.
pub fn pixel_term<P: Fn(Double, Double) -> Double, T: Fn(Double, Double) -> Double>(
    value: Double,
    reference: Double,
    exposure: Double,
    reference_exposure: Double,
    gradient: &[Double; 2],
    j: &[Double; 6],
    p_cam: &[Double; 3],
    r_cw: &[Double; 9],
    plus: &P,
    times: &T,
) -> (term: PixelTerm)
    requires
        binary(*plus),
        binary(*times),
    ensures
        is_term(
            term,
            value,
            reference,
            exposure,
            reference_exposure,
            gradient@,
            j@,
            p_cam@,
            r_cw@,
            ring(*plus, *times),
        ),
{
    let ghost op = ring(*plus, *times);
    let mine = apply_two(times, exposure, value);
    let theirs = apply_two(times, reference_exposure, reference);
    let residual = apply_two(plus, mine, theirs.neg());
    let gu = apply_two(times, gradient[0], exposure);
    let gv = apply_two(times, gradient[1], exposure);
    let slope = [
        apply_two(plus, apply_two(times, gu, j[0]), apply_two(times, gv, j[3])),
        apply_two(plus, apply_two(times, gu, j[1]), apply_two(times, gv, j[4])),
        apply_two(plus, apply_two(times, gu, j[2]), apply_two(times, gv, j[5])),
    ];
    assert(slope@ =~= row_times(seq![gu, gv], j@, op));
    let back = [slope[0].neg(), slope[1].neg(), slope[2].neg()];
    assert(back@ =~= Seq::new(3, |k: int| slope@[k].spec_neg()));
    let turn = skew(p_cam);
    let zero = Double::zero();
    let mut rotation: [Double; 3] = [zero, zero, zero];
    let mut position: [Double; 3] = [zero, zero, zero];
    let ghost by_turn = |k: int, c: int| skew_entry(p_cam@, k, c);
    let ghost by_move = |k: int, c: int| r_cw@[3 * k + c];
    let mut c: usize = 0;
    while c < 3
        invariant
            c <= 3,
            binary(*plus),
            binary(*times),
            op == ring(*plus, *times),
            turn.shaped(3, 3),
            forall|i: int, k: int| turn.has(i, k) ==> #[trigger] turn.at(i, k) == skew_entry(p_cam@, i, k),
            by_turn == (|k: int, c: int| skew_entry(p_cam@, k, c)),
            by_move == (|k: int, c: int| r_cw@[3 * k + c]),
            forall|q: int|
                0 <= q < c ==> #[trigger] rotation@[q] == row_through(slope@, by_turn, op)[q],
            forall|q: int|
                0 <= q < c ==> #[trigger] position@[q] == row_through(back@, by_move, op)[q],
        decreases 3 - c,
    {
        let a = column_sum(&slope, turn.get(0, c), turn.get(1, c), turn.get(2, c), plus, times);
        let b = column_sum(&back, r_cw[c], r_cw[3 + c], r_cw[6 + c], plus, times);
        assert(a == dot(list_of(slope@), |k: int| by_turn(k, c as int), op, 3)) by {
            reveal_with_fuel(dot, 4);
        }
        assert(b == dot(list_of(back@), |k: int| by_move(k, c as int), op, 3)) by {
            reveal_with_fuel(dot, 4);
        }
        rotation[c] = a;
        position[c] = b;
        c += 1;
    }
    assert(rotation@ =~= row_through(slope@, by_turn, op));
    assert(position@ =~= row_through(back@, by_move, op));
    PixelTerm { value, residual, rotation, position }
}

/// Three numbers times a column.
fn column_sum<P: Fn(Double, Double) -> Double, T: Fn(Double, Double) -> Double>(
    r: &[Double; 3],
    a: Double,
    b: Double,
    c: Double,
    plus: &P,
    times: &T,
) -> (s: Double)
    requires
        binary(*plus),
        binary(*times),
    ensures
        ({
            let op = ring(*plus, *times);
            s == (op.plus)(
                (op.plus)(
                    (op.plus)(Double { bits: 0 }, (op.times)(r@[0], a)),
                    (op.times)(r@[1], b),
                ),
                (op.times)(r@[2], c),
            )
        }),
{
    let x = apply_two(times, r[0], a);
    let y = apply_two(times, r[1], b);
    let z = apply_two(times, r[2], c);
    apply_two(plus, apply_two(plus, apply_two(plus, Double::zero(), x), y), z)
}

/// The pixels between which the image is interpolated at `(u, v)`; none outside
/// the image.
pub fn bilinear_corners(image: &GrayImage, u: Double, v: Double) -> (s: Option<BilinearSample>)
    requires
        image.spec_width() > 0,
        image.spec_height() > 0,
    ensures
        match s {
            None => beyond(u, image.spec_width() as int) || beyond(v, image.spec_height() as int),
            Some(s) => {
                &&& !beyond(u, image.spec_width() as int)
                &&& !beyond(v, image.spec_height() as int)
                &&& s.x0 == u.index_clamped()
                &&& s.y0 == v.index_clamped()
                &&& s.x0 < image.spec_width()
                &&& s.y0 < image.spec_height()
                &&& s.corners == corners_around(image, s.x0 as int, s.y0 as int)
            },
        },
{
    let w: usize = image.width();
    let h: usize = image.height();
    if is_beyond(u, w) || is_beyond(v, h) {
        return None;
    }
    let x0: usize = u.to_usize();
    let y0: usize = v.to_usize();
    proof {
        lemma_index_inside(u, w as int);
        lemma_index_inside(v, h as int);
    }
    let x1: usize = if x0 + 1 < w {
        x0 + 1
    } else {
        w - 1
    };
    let y1: usize = if y0 + 1 < h {
        y0 + 1
    } else {
        h - 1
    };
    let corners = Corners {
        tl: grey(image, x0 as i128, y0 as i128),
        tr: grey(image, x1 as i128, y0 as i128),
        bl: grey(image, x0 as i128, y1 as i128),
        br: grey(image, x1 as i128, y1 as i128),
    };
    Some(BilinearSample { x0, y0, corners })
}

/// A coordinate that is not beyond an axis rounds to an index of it.
proof fn lemma_index_inside(u: Double, n: int)
    requires
        0 < n <= usize::MAX,
        !beyond(u, n),
    ensures
        0 <= u.index_clamped() < n,
{
    crate::double::lemma_whole_not_negative(u);
}

/// The differences from which the gradient at a place is interpolated.
#[derive(Clone, Copy, Debug, PartialEq, Eq, Structural)]
pub struct GradientSample {
    /// The column to the left, before it is clamped.
    pub u: i64,
    /// The row above, before it is clamped.
    pub v: i64,
    /// Along the rows, above.
    pub du_near: i32,
    /// Along the rows, below.
    pub du_far: i32,
    /// Along the columns, to the left.
    pub dv_near: i32,
    /// Along the columns, to the right.
    pub dv_far: i32,
}

/// The pixel nearest to `(u, v)`.
pub open spec fn nearest_pixel(image: &GrayImage, u: int, v: int) -> int {
    grey_at(
        image,
        clamp_index(u, image.spec_width() as int),
        clamp_index(v, image.spec_height() as int),
    ) as int
}

/// The pixel nearest to `(u, v)`.
fn clamped_pixel(image: &GrayImage, u: i128, v: i128) -> (p: i32)
    requires
        image.spec_width() > 0,
        image.spec_height() > 0,
    ensures
        p == nearest_pixel(image, u as int, v as int),
        0 <= p <= 255,
{
    let w: i128 = image.width() as i128;
    let h: i128 = image.height() as i128;
    let x: i128 = if u < 0 {
        0
    } else if u >= w {
        w - 1
    } else {
        u
    };
    let y: i128 = if v < 0 {
        0
    } else if v >= h {
        h - 1
    } else {
        v
    };
    grey(image, x, y) as i32
}

/// The differences of neighbouring pixels from which the gradient at `(u, v)` is
/// interpolated; past the border the image goes on as it ends.
pub fn gradient_corners(image: &GrayImage, u: Double, v: Double) -> (g: GradientSample)
    requires
        image.spec_width() > 0,
        image.spec_height() > 0,
        u.floor_clamped() < i64::MAX,
        v.floor_clamped() < i64::MAX,
    ensures
        g.u == u.floor_clamped(),
        g.v == v.floor_clamped(),
        g.du_near == nearest_pixel(image, g.u + 1, g.v as int) - nearest_pixel(
            image,
            g.u as int,
            g.v as int,
        ),
        g.du_far == nearest_pixel(image, g.u + 1, g.v + 1) - nearest_pixel(
            image,
            g.u as int,
            g.v + 1,
        ),
        g.dv_near == nearest_pixel(image, g.u as int, g.v + 1) - nearest_pixel(
            image,
            g.u as int,
            g.v as int,
        ),
        g.dv_far == nearest_pixel(image, g.u + 1, g.v + 1) - nearest_pixel(
            image,
            g.u + 1,
            g.v as int,
        ),
{
    let ui: i64 = u.floor_i64();
    let vi: i64 = v.floor_i64();
    let (x, y): (i128, i128) = (ui as i128, vi as i128);
    let tl: i32 = clamped_pixel(image, x, y);
    let tr: i32 = clamped_pixel(image, x + 1, y);
    let bl: i32 = clamped_pixel(image, x, y + 1);
    let br: i32 = clamped_pixel(image, x + 1, y + 1);
    GradientSample {
        u: ui,
        v: vi,
        du_near: tr - tl,
        du_far: br - bl,
        dv_near: bl - tl,
        dv_far: br - tr,
    }
}

/// A place between the samples of a patch: the sample to its upper left and the
/// four values around it, row by row.
#[derive(Clone, Copy, Debug)]
pub struct PatchSample {
    /// The column to the left.
    pub x0: usize,
    /// The row above.
    pub y0: usize,
    /// The four values.
    pub values: [Double; 4],
}

/// The sample to the left of a coordinate, within the patch.
pub open spec fn patch_index(x: Double, n: int) -> int {
    if x.spec_is_nan() {
        0
    } else {
        clamp_index(x.floored(), n)
    }
}

/// The sample to the left of a coordinate, within the patch.
fn clamp_to_patch(x: Double, n: usize) -> (k: usize)
    requires
        n > 0,
    ensures
        k == patch_index(x, n as int),
        k < n,
{
    let k: usize = x.to_usize();
    proof {
        crate::double::lemma_whole_not_negative(x);
    }
    if k < n {
        k
    } else {
        n - 1
    }
}

/// The values between which a patch is interpolated at `(x, y)`; past its border
/// the patch goes on as it ends.
pub fn patch_corners(data: &Vec<Double>, patch_size: usize, x: Double, y: Double) -> (s:
    PatchSample)
    requires
        patch_size > 0,
        data.len() == patch_size * patch_size,
    ensures
        s.x0 == patch_index(x, patch_size as int),
        s.y0 == patch_index(y, patch_size as int),
        ({
            let (n, x0, y0) = (patch_size as int, s.x0 as int, s.y0 as int);
            let (x1, y1) = (next_index(x0, n), next_index(y0, n));
            &&& s.values@[0] == data@[y0 * n + x0]
            &&& s.values@[1] == data@[y0 * n + x1]
            &&& s.values@[2] == data@[y1 * n + x0]
            &&& s.values@[3] == data@[y1 * n + x1]
        }),
{
    let n: usize = patch_size;
    let x0: usize = clamp_to_patch(x, n);
    let y0: usize = clamp_to_patch(y, n);
    let x1: usize = if x0 + 1 < n {
        x0 + 1
    } else {
        n - 1
    };
    let y1: usize = if y0 + 1 < n {
        y0 + 1
    } else {
        n - 1
    };
    proof {
        crate::matrix::lemma_place_in_range(y0 as int, x0 as int, n as int, n as int);
        crate::matrix::lemma_place_in_range(y0 as int, x1 as int, n as int, n as int);
        crate::matrix::lemma_place_in_range(y1 as int, x0 as int, n as int, n as int);
        crate::matrix::lemma_place_in_range(y1 as int, x1 as int, n as int, n as int);
    }
    let values = [data[y0 * n + x0], data[y0 * n + x1], data[y1 * n + x0], data[y1 * n + x1]];
    PatchSample { x0, y0, values }
}

/// Four grey values as numbers.
pub open spec fn corner_numbers<N: Fn(usize) -> Double>(c: Corners, number: N) -> Seq<Double> {
    seq![
        counted(number, c.tl as usize),
        counted(number, c.tr as usize),
        counted(number, c.bl as usize),
        counted(number, c.br as usize),
    ]
}

/// Four grey values as numbers.
pub fn corner_values<N: Fn(usize) -> Double>(c: &Corners, number: &N) -> (v: [Double; 4])
    requires
        counts(*number),
    ensures
        v@ == corner_numbers(*c, *number),
{
    let v = [
        apply_count(number, c.tl as usize),
        apply_count(number, c.tr as usize),
        apply_count(number, c.bl as usize),
        apply_count(number, c.br as usize),
    ];
    assert(v@ =~= corner_numbers(*c, *number));
    v
}

/// How far a coordinate lies past an index.
pub open spec fn past<N: Fn(usize) -> Double>(u: Double, k: int, number: N, op: Ring) -> Double {
    (op.plus)(u, counted(number, k as usize).spec_neg())
}

/// The grey value at `(u, v)` between the pixels around it; none outside the image.
pub open spec fn grey_between<N: Fn(usize) -> Double>(
    image: &GrayImage,
    u: Double,
    v: Double,
    number: N,
    op: Ring,
) -> Option<Double> {
    let (x0, y0) = (u.index_clamped(), v.index_clamped());
    if beyond(u, image.spec_width() as int) || beyond(v, image.spec_height() as int) {
        None
    } else {
        Some(
            between_four(
                past(u, x0, number, op),
                past(v, y0, number, op),
                corner_numbers(corners_around(image, x0, y0), number),
                op,
            ),
        )
    }
}

/// The grey value at `(u, v)` between the pixels around it; none outside the image.
pub fn bilinear_sample<
    N: Fn(usize) -> Double,
    P: Fn(Double, Double) -> Double,
    T: Fn(Double, Double) -> Double,
>(image: &GrayImage, u: Double, v: Double, number: &N, plus: &P, times: &T) -> (value: Option<Double>)
    requires
        image.spec_width() > 0,
        image.spec_height() > 0,
        counts(*number),
        binary(*plus),
        binary(*times),
    ensures
        value == grey_between(image, u, v, *number, ring(*plus, *times)),
{
    match bilinear_corners(image, u, v) {
        None => None,
        Some(s) => {
            let fx = apply_two(plus, u, apply_count(number, s.x0).neg());
            let fy = apply_two(plus, v, apply_count(number, s.y0).neg());
            let values = corner_values(&s.corners, number);
            Some(interpolate(fx, fy, &values, plus, times))
        },
    }
}

/// How far a coordinate lies past a whole number.
pub open spec fn past_whole<N: Fn(i64) -> Double>(u: Double, k: int, number: N, op: Ring) -> Double {
    (op.plus)(u, number_of(number, k as i64).spec_neg())
}

/// The number between two others.
pub open spec fn between_two(f: Double, near: Double, far: Double, op: Ring) -> Double {
    (op.plus)(
        (op.times)((op.plus)(Double { bits: ONE_BITS }, f.spec_neg()), near),
        (op.times)(f, far),
    )
}

/// The number between two others.
fn blend<P: Fn(Double, Double) -> Double, T: Fn(Double, Double) -> Double>(
    f: Double,
    near: Double,
    far: Double,
    plus: &P,
    times: &T,
) -> (r: Double)
    requires
        binary(*plus),
        binary(*times),
    ensures
        r == between_two(f, near, far, ring(*plus, *times)),
{
    let g = apply_two(plus, Double::one(), f.neg());
    apply_two(plus, apply_two(times, g, near), apply_two(times, f, far))
}

/// The difference of two pixels as a number.
pub open spec fn rise<N: Fn(i64) -> Double>(
    image: &GrayImage,
    u: int,
    v: int,
    to_u: int,
    to_v: int,
    number: N,
) -> Double {
    number_of(number, (nearest_pixel(image, to_u, to_v) - nearest_pixel(image, u, v)) as i64)
}

/// The slope of the grey values at `(u, v)`, along the rows and along the columns.
pub open spec fn slope_at<N: Fn(i64) -> Double>(
    image: &GrayImage,
    u: Double,
    v: Double,
    number: N,
    op: Ring,
) -> Seq<Double> {
    let (x, y) = (u.floor_clamped(), v.floor_clamped());
    seq![
        between_two(
            past_whole(v, y, number, op),
            rise(image, x, y, x + 1, y, number),
            rise(image, x, y + 1, x + 1, y + 1, number),
            op,
        ),
        between_two(
            past_whole(u, x, number, op),
            rise(image, x, y, x, y + 1, number),
            rise(image, x + 1, y, x + 1, y + 1, number),
            op,
        ),
    ]
}

/// The slope of the image at `(u, v)`, along the rows and along the columns: the
/// differences of neighbouring pixels, blended.
pub fn image_gradient<
    N: Fn(i64) -> Double,
    P: Fn(Double, Double) -> Double,
    T: Fn(Double, Double) -> Double,
>(image: &GrayImage, u: Double, v: Double, number: &N, plus: &P, times: &T) -> (slope: [Double; 2])
    requires
        image.spec_width() > 0,
        image.spec_height() > 0,
        u.floor_clamped() < i64::MAX,
        v.floor_clamped() < i64::MAX,
        numbers(*number),
        binary(*plus),
        binary(*times),
    ensures
        slope@ == slope_at(image, u, v, *number, ring(*plus, *times)),
{
    let g = gradient_corners(image, u, v);
    let fu = apply_two(plus, v, apply_number(number, g.v).neg());
    let fv = apply_two(plus, u, apply_number(number, g.u).neg());
    let du = blend(
        fu,
        apply_number(number, g.du_near as i64),
        apply_number(number, g.du_far as i64),
        plus,
        times,
    );
    let dv = blend(
        fv,
        apply_number(number, g.dv_near as i64),
        apply_number(number, g.dv_far as i64),
        plus,
        times,
    );
    let slope = [du, dv];
    assert(slope@ =~= seq![du, dv]);
    slope
}

/// The value of a patch at `(x, y)`, between the samples around it.
pub fn sample_patch_bilinear<
    N: Fn(usize) -> Double,
    P: Fn(Double, Double) -> Double,
    T: Fn(Double, Double) -> Double,
>(
    data: &Vec<Double>,
    patch_size: usize,
    x: Double,
    y: Double,
    number: &N,
    plus: &P,
    times: &T,
) -> (value: Double)
    requires
        patch_size > 0,
        data.len() == patch_size * patch_size,
        counts(*number),
        binary(*plus),
        binary(*times),
    ensures
        ({
            let op = ring(*plus, *times);
            let n = patch_size as int;
            let (x0, y0) = (patch_index(x, n), patch_index(y, n));
            let (x1, y1) = (next_index(x0, n), next_index(y0, n));
            value == between_four(
                past(x, x0, *number, op),
                past(y, y0, *number, op),
                seq![
                    data@[y0 * n + x0],
                    data@[y0 * n + x1],
                    data@[y1 * n + x0],
                    data@[y1 * n + x1],
                ],
                op,
            )
        }),
{
    let s = patch_corners(data, patch_size, x, y);
    let fx = apply_two(plus, x, apply_count(number, s.x0).neg());
    let fy = apply_two(plus, y, apply_count(number, s.y0).neg());
    interpolate(fx, fy, &s.values, plus, times)
}

/// A depth image, row after row.
#[derive(Debug)]
pub struct DepthImage {
    /// The depths (m); zero for none.
    pub depth: Vec<Double>,
    /// The number of columns.
    pub width: usize,
    /// The number of rows.
    pub height: usize,
}

impl DepthImage {
    /// Whether there is a depth for each pixel.
    pub open spec fn wf(&self) -> bool {
        self.depth.len() == self.width * self.height
    }

    /// The depth at `(u, v)`.
    pub open spec fn at(&self, u: int, v: int) -> Double {
        self.depth@[v * self.width + u]
    }

    /// Whether `(u, v)` is a pixel.
    pub open spec fn has(&self, u: int, v: int) -> bool {
        0 <= u < self.width && 0 <= v < self.height
    }
}

/// Whether the depth at a pixel differs from that of a point by more than a threshold.
pub open spec fn jumps<P: Fn(Double, Double) -> Double>(
    image: &DepthImage,
    u: int,
    v: int,
    z: Double,
    thresh: Double,
    plus: P,
) -> bool {
    &&& image.has(u, v)
    &&& (Double { bits: 0 }).spec_lt(image.at(u, v))
    &&& thresh.spec_lt(of_two(plus, z, image.at(u, v).spec_neg()).spec_abs())
}

/// Whether the depth image jumps around a pixel: in one of the nine pixels around it
/// there is a depth that differs from `z` by more than the threshold. Without a depth
/// image it does not.
pub open spec fn jumps_around<P: Fn(Double, Double) -> Double>(
    image: &Option<DepthImage>,
    px: Seq<Double>,
    z: Double,
    thresh: Double,
    plus: P,
) -> bool {
    image is Some && exists|u: int, v: int|
        px[0].floor_clamped() - 1 <= u <= px[0].floor_clamped() + 1 && px[1].floor_clamped() - 1 <= v
            <= px[1].floor_clamped() + 1 && #[trigger] jumps(&image->0, u, v, z, thresh, plus)
}

/// Whether the depth image jumps around the pixel of a point at depth `z`.
pub fn depth_discontinuous<P: Fn(Double, Double) -> Double>(
    image: &Option<DepthImage>,
    px: &[Double; 2],
    z: Double,
    thresh: Double,
    plus: &P,
) -> (yes: bool)
    requires
        image matches Some(d) ==> d.wf(),
        binary(*plus),
    ensures
        yes == jumps_around(image, px@, z, thresh, *plus),
{
    let d = match image {
        None => {
            return false;
        },
        Some(d) => d,
    };
    let u: i128 = px[0].floor_i64() as i128;
    let v: i128 = px[1].floor_i64() as i128;
    let mut du: i128 = -1;
    while du <= 1
        invariant
            -1 <= du <= 2,
            d.wf(),
            binary(*plus),
            i64::MIN <= u <= i64::MAX,
            i64::MIN <= v <= i64::MAX,
            *image == Some(*d),
            u == px@[0].floor_clamped(),
            v == px@[1].floor_clamped(),
            forall|x: int, y: int|
                u - 1 <= x < u + du && v - 1 <= y <= v + 1 ==> !#[trigger] jumps(
                    d,
                    x,
                    y,
                    z,
                    thresh,
                    *plus,
                ),
        decreases 2 - du,
    {
        let mut dv: i128 = -1;
        while dv <= 1
            invariant
                -1 <= du <= 1,
                -1 <= dv <= 2,
                d.wf(),
                binary(*plus),
                i64::MIN <= u <= i64::MAX,
                i64::MIN <= v <= i64::MAX,
                *image == Some(*d),
                u == px@[0].floor_clamped(),
                v == px@[1].floor_clamped(),
                forall|x: int, y: int|
                    u - 1 <= x < u + du && v - 1 <= y <= v + 1 ==> !#[trigger] jumps(
                        d,
                        x,
                        y,
                        z,
                        thresh,
                        *plus,
                    ),
                forall|x: int, y: int|
                    x == u + du && v - 1 <= y < v + dv ==> !#[trigger] jumps(
                        d,
                        x,
                        y,
                        z,
                        thresh,
                        *plus,
                    ),
            decreases 2 - dv,
        {
            let uu: i128 = u + du;
            let vv: i128 = v + dv;
            if uu >= 0 && vv >= 0 && uu < d.width as i128 && vv < d.height as i128 {
                proof {
                    crate::matrix::lemma_place_in_range(
                        vv as int,
                        uu as int,
                        d.height as int,
                        d.width as int,
                    );
                    assert(d.height * d.width == d.width * d.height) by (nonlinear_arith);
                }
                let depth = d.depth[vv as usize * d.width + uu as usize];
                let gap = apply_two(plus, z, depth.neg()).abs();
                if Double::zero().lt(depth) && thresh.lt(gap) {
                    assert(jumps(&image->0, uu as int, vv as int, z, thresh, *plus));
                    return true;
                }
            }
            assert(!jumps(d, uu as int, vv as int, z, thresh, *plus));
            dv += 1;
        }
        du += 1;
    }
    false
}

/// What a pixel of a patch says.
#[derive(Clone, Copy, Debug)]
pub struct PixelTerm {
    /// The grey value of the image, which is the derivative by the exposure.
    pub value: Double,
    /// The difference of the grey values.
    pub residual: Double,
    /// The derivative by the orientation.
    pub rotation: [Double; 3],
    /// The derivative by the position.
    pub position: [Double; 3],
}

/// How a visual point lies in the current view, and what its pixels say.
#[derive(Debug)]
pub struct PointReading {
    /// The number of values of its reference patch.
    pub reference_len: usize,
    /// The depth of the point (m).
    pub depth: Double,
    /// The cosine between normal and line of sight.
    pub view_cos: Double,
    /// Whether the depth image jumps there.
    pub discontinuous: bool,
    /// The pixels, row by row; none outside the image.
    pub pixels: Vec<Option<PixelTerm>>,
}

/// The measurement of one level of the pyramid.
#[derive(Debug)]
pub struct VisualMeasurement {
    /// The points.
    pub points: Vec<PointReading>,
    /// Edge length of a patch (samples).
    pub patch_size: usize,
    /// The options.
    pub opts: VisualOptions,
    /// The sum of squared residuals of a patch that is still used.
    pub limit: Double,
}

/// The size of the patches: that of the first point, or that of the options.
pub fn patch_size(first: Option<usize>, opts: &VisualOptions) -> (n: usize)
    ensures
        n == (match first {
            Some(k) => k,
            None => opts.patch_size,
        }),
{
    match first {
        Some(k) => k,
        None => opts.patch_size,
    }
}

/// The sum of the squared residuals of the first `n` pixels.
pub open spec fn squares<P: Fn(Double, Double) -> Double, T: Fn(Double, Double) -> Double>(
    pixels: Seq<Option<PixelTerm>>,
    plus: P,
    times: T,
    n: int,
) -> Double
    decreases n,
{
    if n <= 0 {
        Double { bits: 0 }
    } else {
        let rest = squares(pixels, plus, times, n - 1);
        match pixels[n - 1] {
            Some(t) => of_two(plus, rest, of_two(times, t.residual, t.residual)),
            None => rest,
        }
    }
}

/// Whether one of the pixels lies inside the image.
pub open spec fn any_pixel(pixels: Seq<Option<PixelTerm>>) -> bool {
    exists|k: int| 0 <= k < pixels.len() && #[trigger] pixels[k] is Some
}

/// Entry `j` of the derivative of a pixel's residual.
pub open spec fn pixel_entry(t: PixelTerm, j: int, exposure: bool) -> Double {
    if j < 3 {
        t.rotation@[j]
    } else if j < 6 {
        t.position@[j - 3]
    } else if j == 6 && exposure {
        t.value
    } else {
        Double { bits: 0 }
    }
}

impl VisualMeasurement {
    /// The samples of a patch.
    pub open spec fn patch_n(&self) -> int {
        self.patch_size * self.patch_size
    }

    /// Whether each point has a pixel for each sample, and the rows fit.
    pub open spec fn wf(&self) -> bool {
        &&& self.patch_n() <= usize::MAX
        &&& self.points@.len() * self.patch_n() * DIM_STATE <= usize::MAX
        &&& self.points@.len() * self.patch_n() <= usize::MAX
        &&& forall|i: int|
            0 <= i < self.points@.len() ==> (#[trigger] self.points@[i]).pixels@.len()
                == self.patch_n()
    }

    /// Whether a point can be compared: it has a patch, lies in front, is seen
    /// steeply enough, and the depth does not jump there.
    pub open spec fn usable(&self, p: PointReading) -> bool {
        &&& p.reference_len == self.patch_n()
        &&& !p.depth.spec_le(Double { bits: 0 })
        &&& !p.view_cos.spec_lt(self.opts.min_view_cos)
        &&& !p.discontinuous
    }

    /// Whether a point's patch differs too much.
    pub open spec fn gated<P: Fn(Double, Double) -> Double, T: Fn(Double, Double) -> Double>(
        &self,
        p: PointReading,
        plus: P,
        times: T,
    ) -> bool {
        any_pixel(p.pixels@) && self.limit.spec_lt(
            squares(p.pixels@, plus, times, p.pixels@.len() as int),
        )
    }

    /// The pixel that counts in a row, if it does.
    pub open spec fn row_term<P: Fn(Double, Double) -> Double, T: Fn(Double, Double) -> Double>(
        &self,
        plus: P,
        times: T,
        row: int,
    ) -> Option<PixelTerm> {
        let p = self.points@[row / self.patch_n()];
        if self.usable(p) && !self.gated(p, plus, times) {
            p.pixels@[row % self.patch_n()]
        } else {
            None
        }
    }

    /// The pixels that count among the first `n` rows.
    pub open spec fn used<P: Fn(Double, Double) -> Double, T: Fn(Double, Double) -> Double>(
        &self,
        plus: P,
        times: T,
        n: int,
    ) -> Seq<PixelTerm>
        decreases n,
    {
        if n <= 0 {
            Seq::empty()
        } else {
            let rest = self.used(plus, times, n - 1);
            match self.row_term(plus, times, n - 1) {
                Some(t) => rest.push(t),
                None => rest,
            }
        }
    }

    /// The number of rows: one for each sample of each patch.
    pub fn dim(&self) -> (n: usize)
        requires
            self.wf(),
        ensures
            n == self.points@.len() * self.patch_n(),
    {
        let side: usize = self.patch_size;
        self.points.len() * (side * side)
    }

    /// Whether a point counts.
    fn counts<P: Fn(Double, Double) -> Double, T: Fn(Double, Double) -> Double>(
        &self,
        i: usize,
        plus: &P,
        times: &T,
    ) -> (yes: bool)
        requires
            self.wf(),
            i < self.points@.len(),
            binary(*plus),
            binary(*times),
        ensures
            yes == (self.usable(self.points@[i as int]) && !self.gated(
                self.points@[i as int],
                *plus,
                *times,
            )),
    {
        let p = &self.points[i];
        let patch_n: usize = self.patch_size * self.patch_size;
        if p.reference_len != patch_n || p.depth.le(Double::zero()) || p.view_cos.lt(
            self.opts.min_view_cos,
        ) || p.discontinuous {
            return false;
        }
        let mut error = Double::zero();
        let mut any = false;
        let mut k: usize = 0;
        while k < p.pixels.len()
            invariant
                k <= p.pixels@.len(),
                binary(*plus),
                binary(*times),
                error == squares(p.pixels@, *plus, *times, k as int),
                any == (exists|j: int| 0 <= j < k && #[trigger] p.pixels@[j] is Some),
            decreases p.pixels@.len() - k,
        {
            match p.pixels[k] {
                Some(t) => {
                    assert(p.pixels@[k as int] is Some);
                    error = apply_two(plus, error, apply_two(times, t.residual, t.residual));
                    any = true;
                },
                None => {},
            }
            k += 1;
        }
        !(any && self.limit.lt(error))
    }

    /// Whether rows are those of the measurement.
    pub open spec fn has_rows<P: Fn(Double, Double) -> Double, T: Fn(Double, Double) -> Double>(
        &self,
        rows: &ResidualRows,
        plus: P,
        times: T,
    ) -> bool {
        &&& rows.z@.len() == self.points@.len() * self.patch_n()
        &&& rows.r@.len() == rows.z@.len()
        &&& rows.h.shaped(rows.z@.len() as int, DIM_STATE as int)
        &&& forall|row: int|
            0 <= row < rows.z@.len() ==> #[trigger] rows.z@[row] == (match self.row_term(
                plus,
                times,
                row,
            ) {
                Some(t) => t.residual,
                None => Double { bits: 0 },
            })
        &&& forall|row: int|
            0 <= row < rows.z@.len() ==> #[trigger] rows.r@[row] == (match self.row_term(
                plus,
                times,
                row,
            ) {
                Some(_) => self.opts.img_point_cov,
                None => Double { bits: ZERO_INFO },
            })
        &&& forall|row: int, j: int|
            rows.h.has(row, j) ==> #[trigger] rows.h.at(row, j) == (match self.row_term(
                plus,
                times,
                row,
            ) {
                Some(t) => pixel_entry(t, j, self.opts.estimate_exposure),
                None => Double { bits: 0 },
            })
    }

    /// The rows of the measurement, one for each sample of each patch. A row that
    /// does not count says nothing.
    pub fn level_residual<P: Fn(Double, Double) -> Double, T: Fn(Double, Double) -> Double>(
        &self,
        plus: &P,
        times: &T,
    ) -> (rows: ResidualRows)
        requires
            self.wf(),
            binary(*plus),
            binary(*times),
        ensures
            self.has_rows(&rows, *plus, *times),
    {
        let n: usize = self.points.len();
        let patch_n: usize = self.patch_size * self.patch_size;
        let m: usize = n * patch_n;
        let mut rows = ResidualRows {
            z: Vec::new(),
            h: Matrix::filled(m, DIM_STATE, Double::zero()),
            r: Vec::new(),
        };
        let mut i: usize = 0;
        assert(0 * patch_n == 0) by (nonlinear_arith);
        while i < n
            invariant
                self.wf(),
                binary(*plus),
                binary(*times),
                n == self.points@.len(),
                patch_n == self.patch_n(),
                m == n * patch_n,
                i <= n,
                rows.z@.len() == i * patch_n,
                self.rows_hold(&rows, *plus, *times, m as int),
            decreases n - i,
        {
            let counts = self.counts(i, plus, times);
            let mut k: usize = 0;
            while k < patch_n
                invariant
                    self.wf(),
                    n == self.points@.len(),
                    patch_n == self.patch_n(),
                    m == n * patch_n,
                    i < n,
                    k <= patch_n,
                    counts == (self.usable(self.points@[i as int]) && !self.gated(
                        self.points@[i as int],
                        *plus,
                        *times,
                    )),
                    rows.z@.len() == i * patch_n + k,
                    self.rows_hold(&rows, *plus, *times, m as int),
                decreases patch_n - k,
            {
                proof {
                    crate::matrix::lemma_place_in_range(
                        i as int,
                        k as int,
                        n as int,
                        patch_n as int,
                    );
                    vstd::arithmetic::div_mod::lemma_fundamental_div_mod_converse(
                        i * patch_n + k,
                        patch_n as int,
                        i as int,
                        k as int,
                    );
                }
                let term = if counts {
                    self.points[i].pixels[k]
                } else {
                    None
                };
                assert(matches_term(term, self.row_term(*plus, *times, i * patch_n + k)));
                let row: usize = i * patch_n + k;
                match term {
                    Some(t) => {
                        rows.z.push(t.residual);
                        rows.r.push(self.opts.img_point_cov);
                        rows.h.set(row, 0, t.rotation[0]);
                        rows.h.set(row, 1, t.rotation[1]);
                        rows.h.set(row, 2, t.rotation[2]);
                        rows.h.set(row, 3, t.position[0]);
                        rows.h.set(row, 4, t.position[1]);
                        rows.h.set(row, 5, t.position[2]);
                        if self.opts.estimate_exposure {
                            rows.h.set(row, 6, t.value);
                        }
                    },
                    None => {
                        rows.z.push(Double::zero());
                        rows.r.push(Double { bits: ZERO_INFO });
                    },
                }
                k += 1;
            }
            i += 1;
            assert((i - 1) * patch_n + patch_n == i * patch_n) by (nonlinear_arith)
                requires
                    i >= 1,
            ;
        }
        rows
    }

    /// Whether the rows that were pushed hold their terms, and the rest of the
    /// derivatives is zero.
    spec fn rows_hold<P: Fn(Double, Double) -> Double, T: Fn(Double, Double) -> Double>(
        &self,
        rows: &ResidualRows,
        plus: P,
        times: T,
        m: int,
    ) -> bool {
        &&& rows.r@.len() == rows.z@.len()
        &&& rows.h.shaped(m, DIM_STATE as int)
        &&& forall|row: int|
            0 <= row < rows.z@.len() ==> #[trigger] rows.z@[row] == (match self.row_term(
                plus,
                times,
                row,
            ) {
                Some(t) => t.residual,
                None => Double { bits: 0 },
            })
        &&& forall|row: int|
            0 <= row < rows.z@.len() ==> #[trigger] rows.r@[row] == (match self.row_term(
                plus,
                times,
                row,
            ) {
                Some(_) => self.opts.img_point_cov,
                None => Double { bits: ZERO_INFO },
            })
        &&& forall|row: int, j: int|
            rows.h.has(row, j) ==> #[trigger] rows.h.at(row, j) == (if row < rows.z@.len() {
                match self.row_term(plus, times, row) {
                    Some(t) => pixel_entry(t, j, self.opts.estimate_exposure),
                    None => Double { bits: 0 },
                }
            } else {
                Double { bits: 0 }
            })
    }

    /// How many rows count: those with a variance below the limit.
    pub fn effective_count<P: Fn(Double, Double) -> Double, T: Fn(Double, Double) -> Double>(
        &self,
        plus: &P,
        times: &T,
    ) -> (n: usize)
        requires
            self.wf(),
            binary(*plus),
            binary(*times),
        ensures
            exists|r: Seq<Double>|
                #![auto]
                n == effective(r, r.len() as int) && r.len() == self.points@.len()
                    * self.patch_n() && forall|row: int|
                    0 <= row < r.len() ==> r[row] == (match self.row_term(*plus, *times, row) {
                        Some(_) => self.opts.img_point_cov,
                        None => Double { bits: ZERO_INFO },
                    }),
    {
        let rows = self.level_residual(plus, times);
        effective_count(&rows.r)
    }

    /// The pixels that count, in the order of their rows.
    fn used_terms<P: Fn(Double, Double) -> Double, T: Fn(Double, Double) -> Double>(
        &self,
        plus: &P,
        times: &T,
    ) -> (terms: Vec<PixelTerm>)
        requires
            self.wf(),
            binary(*plus),
            binary(*times),
        ensures
            terms@ == self.used(*plus, *times, self.points@.len() * self.patch_n()),
    {
        let n: usize = self.points.len();
        let patch_n: usize = self.patch_size * self.patch_size;
        let mut terms: Vec<PixelTerm> = Vec::new();
        let mut i: usize = 0;
        assert(0 * patch_n == 0) by (nonlinear_arith);
        while i < n
            invariant
                self.wf(),
                binary(*plus),
                binary(*times),
                n == self.points@.len(),
                patch_n == self.patch_n(),
                i <= n,
                terms@ == self.used(*plus, *times, i * patch_n),
            decreases n - i,
        {
            let counts = self.counts(i, plus, times);
            let mut k: usize = 0;
            while k < patch_n
                invariant
                    self.wf(),
                    n == self.points@.len(),
                    patch_n == self.patch_n(),
                    i < n,
                    k <= patch_n,
                    counts == (self.usable(self.points@[i as int]) && !self.gated(
                        self.points@[i as int],
                        *plus,
                        *times,
                    )),
                    terms@ == self.used(*plus, *times, i * patch_n + k),
                decreases patch_n - k,
            {
                proof {
                    crate::matrix::lemma_place_in_range(
                        i as int,
                        k as int,
                        n as int,
                        patch_n as int,
                    );
                    vstd::arithmetic::div_mod::lemma_fundamental_div_mod_converse(
                        i * patch_n + k,
                        patch_n as int,
                        i as int,
                        k as int,
                    );
                }
                if counts {
                    match self.points[i].pixels[k] {
                        Some(t) => {
                            terms.push(t);
                        },
                        None => {},
                    }
                }
                k += 1;
            }
            i += 1;
            assert((i - 1) * patch_n + patch_n == i * patch_n) by (nonlinear_arith)
                requires
                    i >= 1,
            ;
        }
        terms
    }

    /// The measurement in sum, over the pixels that count; `r_inv` is one over
    /// the variance of a pixel.
    pub fn level_information<P: Fn(Double, Double) -> Double, T: Fn(Double, Double) -> Double>(
        &self,
        r_inv: Double,
        plus: &P,
        times: &T,
    ) -> (info: Information)
        requires
            self.wf(),
            binary(*plus),
            binary(*times),
        ensures
            adds_up(
                &info,
                self.used(*plus, *times, self.points@.len() * self.patch_n()),
                self.opts.estimate_exposure,
                r_inv,
                *plus,
                *times,
                self.used(*plus, *times, self.points@.len() * self.patch_n()).len() as int,
            ),
    {
        let terms = self.used_terms(plus, times);
        let exposure = self.opts.estimate_exposure;
        let zero = Double::zero();
        let mut info = Information {
            s: Matrix::filled(DIM_STATE, DIM_STATE, zero),
            b: vec![
                zero, zero, zero, zero, zero, zero, zero, zero, zero, zero, zero, zero, zero, zero,
                zero, zero, zero, zero, zero,
            ],
            e: zero,
        };
        let mut i: usize = 0;
        while i < terms.len()
            invariant
                i <= terms@.len(),
                binary(*plus),
                binary(*times),
                adds_up(&info, terms@, exposure, r_inv, *plus, *times, i as int),
            decreases terms@.len() - i,
        {
            add_term(&mut info, &terms, i, exposure, r_inv, plus, times);
            i += 1;
        }
        info
    }

    /// Runs the levels of a pyramid from the coarsest to the finest, the finest
    /// three times, each from where the one before ended; `run` updates an
    /// estimate on a level and counts its iterations. Without points nothing is
    /// run. The first error ends it. The number of all iterations.
    pub fn pyramid_update<X: Copy, E, R: Fn(usize, X) -> Result<(X, usize), E>>(
        has_points: bool,
        opts: &VisualOptions,
        state: &mut X,
        run: &R,
    ) -> (total: Result<usize, E>)
        requires
            runs(*run, opts.max_iterations),
            (opts.pyramid_level + 2) * opts.max_iterations <= usize::MAX,
        ensures
            !has_points ==> total == Ok::<usize, E>(0) && *final(state) == *old(state),
            has_points ==> (*final(state), total) == climbed(
                *run,
                opts.pyramid_level as int,
                *old(state),
            ),
    {
        if !has_points {
            return Ok(0);
        }
        let levels = schedule(opts.pyramid_level);
        let mut total: usize = 0;
        let mut i: usize = 0;
        let most: usize = opts.max_iterations;
        let ghost whole = climbed(*run, opts.pyramid_level as int, *old(state));
        assert(levels@.subrange(0, levels@.len() as int) =~= levels@);
        assert(0 * most == 0) by (nonlinear_arith);
        while i < levels.len()
            invariant
                has_points,
                i <= levels@.len(),
                runs(*run, most),
                levels@.len() <= opts.pyramid_level + 2,
                (opts.pyramid_level + 2) * most <= usize::MAX,
                total <= i * most,
                whole == climbed(*run, opts.pyramid_level as int, *old(state)),
                whole == through(
                    *run,
                    levels@.subrange(i as int, levels@.len() as int),
                    *state,
                    total as int,
                ),
            decreases levels@.len() - i,
        {
            let x: X = *state;
            let level: usize = levels[i];
            let result = run(level, x);
            proof {
                assert(call_ensures(*run, (level, x), result));
                assert(call_ensures(*run, (level, x), run_of(*run, level, x)));
                let rest = levels@.subrange(i as int, levels@.len() as int);
                assert(rest.drop_first() =~= levels@.subrange(i + 1, levels@.len() as int));
                assert(rest[0] == level);
                assert((i + 1) * most == i * most + most) by (nonlinear_arith);
                assert((i + 1) * most <= (opts.pyramid_level + 2) * most) by (nonlinear_arith)
                    requires
                        i + 1 <= opts.pyramid_level + 2,
                        most >= 0,
                ;
            }
            match result {
                Ok((next, iterations)) => {
                    *state = next;
                    total += iterations;
                },
                Err(e) => {
                    return Err(e);
                },
            }
            i += 1;
        }
        Ok(total)
    }
}

/// Whether two terms are the same, or both missing.
spec fn matches_term(a: Option<PixelTerm>, b: Option<PixelTerm>) -> bool {
    a == b
}

/// The sum, over the first `n` pixels, of the product of two factors with the
/// inverse variance.
pub open spec fn pixel_sum<P: Fn(Double, Double) -> Double, T: Fn(Double, Double) -> Double>(
    f: spec_fn(PixelTerm) -> Double,
    g: spec_fn(PixelTerm) -> Double,
    terms: Seq<PixelTerm>,
    r_inv: Double,
    plus: P,
    times: T,
    n: int,
) -> Double
    decreases n,
{
    if n <= 0 {
        Double { bits: 0 }
    } else {
        let t = terms[n - 1];
        of_two(
            plus,
            pixel_sum(f, g, terms, r_inv, plus, times, n - 1),
            of_two(times, of_two(times, f(t), g(t)), r_inv),
        )
    }
}

/// Entry `j` of a pixel's derivative, as a factor.
pub open spec fn entry_factor(j: int, exposure: bool) -> spec_fn(PixelTerm) -> Double {
    |t: PixelTerm| pixel_entry(t, j, exposure)
}

/// A pixel's residual, as a factor.
pub open spec fn residual_factor() -> spec_fn(PixelTerm) -> Double {
    |t: PixelTerm| t.residual
}

/// Whether an information adds up the first `n` pixels. Only the first seven
/// entries of the error take part.
pub open spec fn adds_up<P: Fn(Double, Double) -> Double, T: Fn(Double, Double) -> Double>(
    info: &Information,
    terms: Seq<PixelTerm>,
    exposure: bool,
    r_inv: Double,
    plus: P,
    times: T,
    n: int,
) -> bool {
    &&& info.s.shaped(DIM_STATE as int, DIM_STATE as int)
    &&& info.b@.len() == DIM_STATE
    &&& forall|a: int, c: int|
        info.s.has(a, c) ==> #[trigger] info.s.at(a, c) == (if a < PIXEL_DIM && c < PIXEL_DIM {
            pixel_sum(
                entry_factor(a, exposure),
                entry_factor(c, exposure),
                terms,
                r_inv,
                plus,
                times,
                n,
            )
        } else {
            Double { bits: 0 }
        })
    &&& forall|a: int|
        0 <= a < DIM_STATE ==> #[trigger] info.b@[a] == (if a < PIXEL_DIM {
            pixel_sum(entry_factor(a, exposure), residual_factor(), terms, r_inv, plus, times, n)
        } else {
            Double { bits: 0 }
        })
    &&& info.e == pixel_sum(residual_factor(), residual_factor(), terms, r_inv, plus, times, n)
}

/// Entry `j` of a pixel's derivative.
fn entry_of(t: &PixelTerm, j: usize, exposure: bool) -> (v: Double)
    requires
        j < PIXEL_DIM,
    ensures
        v == pixel_entry(*t, j as int, exposure),
{
    if j < 3 {
        t.rotation[j]
    } else if j < 6 {
        t.position[j - 3]
    } else if exposure {
        t.value
    } else {
        Double::zero()
    }
}

/// Adds a pixel.
fn add_term<P: Fn(Double, Double) -> Double, T: Fn(Double, Double) -> Double>(
    info: &mut Information,
    terms: &Vec<PixelTerm>,
    i: usize,
    exposure: bool,
    r_inv: Double,
    plus: &P,
    times: &T,
)
    requires
        i < terms@.len(),
        binary(*plus),
        binary(*times),
        adds_up(old(info), terms@, exposure, r_inv, *plus, *times, i as int),
    ensures
        adds_up(final(info), terms@, exposure, r_inv, *plus, *times, i + 1),
{
    let t = terms[i];
    let mut a: usize = 0;
    while a < PIXEL_DIM
        invariant
            a <= PIXEL_DIM,
            i < terms@.len(),
            t == terms@[i as int],
            binary(*plus),
            binary(*times),
            info.s.shaped(DIM_STATE as int, DIM_STATE as int),
            info.b@.len() == DIM_STATE,
            info.e == pixel_sum(
                residual_factor(),
                residual_factor(),
                terms@,
                r_inv,
                *plus,
                *times,
                i as int,
            ),
            forall|k: int, l: int|
                info.s.has(k, l) ==> #[trigger] info.s.at(k, l) == (if k < PIXEL_DIM && l
                    < PIXEL_DIM {
                    pixel_sum(
                        entry_factor(k, exposure),
                        entry_factor(l, exposure),
                        terms@,
                        r_inv,
                        *plus,
                        *times,
                        if k < a {
                            i + 1
                        } else {
                            i as int
                        },
                    )
                } else {
                    Double { bits: 0 }
                }),
            forall|k: int|
                0 <= k < DIM_STATE ==> #[trigger] info.b@[k] == (if k < PIXEL_DIM {
                    pixel_sum(
                        entry_factor(k, exposure),
                        residual_factor(),
                        terms@,
                        r_inv,
                        *plus,
                        *times,
                        if k < a {
                            i + 1
                        } else {
                            i as int
                        },
                    )
                } else {
                    Double { bits: 0 }
                }),
        decreases PIXEL_DIM - a,
    {
        let ha = entry_of(&t, a, exposure);
        let mut c: usize = 0;
        while c < PIXEL_DIM
            invariant
                a < PIXEL_DIM,
                c <= PIXEL_DIM,
                i < terms@.len(),
                t == terms@[i as int],
                ha == pixel_entry(t, a as int, exposure),
                binary(*plus),
                binary(*times),
                info.s.shaped(DIM_STATE as int, DIM_STATE as int),
                info.b@.len() == DIM_STATE,
                info.e == pixel_sum(
                    residual_factor(),
                    residual_factor(),
                    terms@,
                    r_inv,
                    *plus,
                    *times,
                    i as int,
                ),
                forall|k: int, l: int|
                    info.s.has(k, l) ==> #[trigger] info.s.at(k, l) == (if k < PIXEL_DIM && l
                        < PIXEL_DIM {
                        pixel_sum(
                            entry_factor(k, exposure),
                            entry_factor(l, exposure),
                            terms@,
                            r_inv,
                            *plus,
                            *times,
                            if k < a || (k == a && l < c) {
                                i + 1
                            } else {
                                i as int
                            },
                        )
                    } else {
                        Double { bits: 0 }
                    }),
                forall|k: int|
                    0 <= k < DIM_STATE ==> #[trigger] info.b@[k] == (if k < PIXEL_DIM {
                        pixel_sum(
                            entry_factor(k, exposure),
                            residual_factor(),
                            terms@,
                            r_inv,
                            *plus,
                            *times,
                            if k < a {
                                i + 1
                            } else {
                                i as int
                            },
                        )
                    } else {
                        Double { bits: 0 }
                    }),
            decreases PIXEL_DIM - c,
        {
            let product = apply_two(times, ha, entry_of(&t, c, exposure));
            let sum = apply_two(plus, info.s.get(a, c), apply_two(times, product, r_inv));
            assert(sum == pixel_sum(
                entry_factor(a as int, exposure),
                entry_factor(c as int, exposure),
                terms@,
                r_inv,
                *plus,
                *times,
                i + 1,
            ));
            info.s.set(a, c, sum);
            c += 1;
        }
        let product = apply_two(times, ha, t.residual);
        let sum = apply_two(plus, info.b[a], apply_two(times, product, r_inv));
        assert(sum == pixel_sum(
            entry_factor(a as int, exposure),
            residual_factor(),
            terms@,
            r_inv,
            *plus,
            *times,
            i + 1,
        ));
        info.b.set(a, sum);
        a += 1;
    }
    let product = apply_two(times, t.residual, t.residual);
    info.e = apply_two(plus, info.e, apply_two(times, product, r_inv));
}

/// The levels in the order in which they are run.
pub open spec fn level_order(levels: int) -> Seq<usize>
    decreases levels,
{
    if levels <= 0 {
        Seq::empty()
    } else {
        Seq::new((levels - 1) as nat, |i: int| (levels - 1 - i) as usize) + seq![0, 0, 0]
    }
}

/// The levels in the order in which they are run: from the coarsest to the
/// finest, the finest three times.
pub fn schedule(levels: usize) -> (order: Vec<usize>)
    ensures
        order@ == level_order(levels as int),
{
    let mut order: Vec<usize> = Vec::new();
    let mut level: usize = levels;
    while level > 1
        invariant
            level <= levels,
            levels > 0 ==> level >= 1,
            order@.len() == levels - level,
            forall|i: int|
                0 <= i < order@.len() ==> #[trigger] order@[i] == levels - 1 - i,
        decreases level,
    {
        level -= 1;
        order.push(level);
    }
    if levels > 0 {
        order.push(0);
        order.push(0);
        order.push(0);
    }
    assert(order@ =~= level_order(levels as int));
    order
}

/// Whether a level can always be run, always with the same result, and with at
/// most the given iterations.
pub open spec fn runs<X, E, R: Fn(usize, X) -> Result<(X, usize), E>>(run: R, most: usize) -> bool {
    &&& forall|l: usize, x: X| #[trigger] call_requires(run, (l, x))
    &&& forall|l: usize, x: X, a: Result<(X, usize), E>, b: Result<(X, usize), E>| #[trigger]
        call_ensures(run, (l, x), a) && #[trigger] call_ensures(run, (l, x), b) ==> a == b
    &&& forall|l: usize, x: X, a: Result<(X, usize), E>| #[trigger]
        call_ensures(run, (l, x), a) && a is Ok ==> a->Ok_0.1 <= most
}

/// The result of running a level.
pub open spec fn run_of<X, E, R: Fn(usize, X) -> Result<(X, usize), E>>(
    run: R,
    level: usize,
    x: X,
) -> Result<(X, usize), E> {
    choose|r: Result<(X, usize), E>| call_ensures(run, (level, x), r)
}

/// Where running the given levels leads, and the iterations together with those
/// before; the first error ends it.
pub open spec fn through<X, E, R: Fn(usize, X) -> Result<(X, usize), E>>(
    run: R,
    levels: Seq<usize>,
    x: X,
    total: int,
) -> (X, Result<usize, E>)
    decreases levels.len(),
{
    if levels.len() == 0 {
        (x, Ok(total as usize))
    } else {
        match run_of(run, levels[0], x) {
            Ok((next, iterations)) => through(run, levels.drop_first(), next, total + iterations),
            Err(e) => (x, Err(e)),
        }
    }
}

/// Where the whole pyramid leads.
pub open spec fn climbed<X, E, R: Fn(usize, X) -> Result<(X, usize), E>>(
    run: R,
    levels: int,
    x: X,
) -> (X, Result<usize, E>) {
    through(run, level_order(levels), x, 0)
}

/// A row of the measurement says something exactly if its pixel counts: hidden
/// points, points behind the camera and points with too large a difference take
/// no part.
pub proof fn law_rejected_points_say_nothing<
    P: Fn(Double, Double) -> Double,
    T: Fn(Double, Double) -> Double,
>(m: &VisualMeasurement, plus: P, times: T, row: int)
    requires
        m.wf(),
        m.patch_n() > 0,
        0 <= row < m.points@.len() * m.patch_n(),
        ({
            let p = m.points@[row / m.patch_n()];
            p.discontinuous || p.depth.spec_le(Double { bits: 0 }) || m.gated(p, plus, times)
        }),
    ensures
        m.row_term(plus, times, row) is None,
{
}

/// Whether a row that says nothing leaves the partial sums of two factors as they are:
/// adding what it has to say changes none of them.
pub open spec fn unchanged_by_nothing<
    P: Fn(Double, Double) -> Double,
    T: Fn(Double, Double) -> Double,
    V: Fn(Double) -> Double,
>(
    f: spec_fn(PixelTerm) -> Double,
    g: spec_fn(PixelTerm) -> Double,
    terms: Seq<PixelTerm>,
    r_inv: Double,
    plus: P,
    times: T,
    inverse: V,
) -> bool {
    let z = Double { bits: 0 };
    let silent = of_two(times, of_two(times, z, z), of_one(inverse, Double { bits: ZERO_INFO }));
    forall|k: int|
        0 <= k <= terms.len() ==> of_two(
            plus,
            #[trigger] pixel_sum(f, g, terms, r_inv, plus, times, k),
            silent,
        ) == pixel_sum(f, g, terms, r_inv, plus, times, k)
}

/// A sum over pixels depends on those alone.
proof fn lemma_pixel_sum_same<P: Fn(Double, Double) -> Double, T: Fn(Double, Double) -> Double>(
    f: spec_fn(PixelTerm) -> Double,
    g: spec_fn(PixelTerm) -> Double,
    a: Seq<PixelTerm>,
    b: Seq<PixelTerm>,
    r_inv: Double,
    plus: P,
    times: T,
    n: int,
)
    requires
        0 <= n <= a.len(),
        n <= b.len(),
        forall|i: int| 0 <= i < n ==> #[trigger] a[i] == b[i],
    ensures
        pixel_sum(f, g, a, r_inv, plus, times, n) == pixel_sum(f, g, b, r_inv, plus, times, n),
    decreases n,
{
    if n > 0 {
        lemma_pixel_sum_same(f, g, a, b, r_inv, plus, times, n - 1);
        assert(a[n - 1] == b[n - 1]);
    }
}

/// The pixels of the first rows come first.
proof fn lemma_used_prefix<P: Fn(Double, Double) -> Double, T: Fn(Double, Double) -> Double>(
    m: &VisualMeasurement,
    plus: P,
    times: T,
    n: int,
    all: int,
)
    requires
        0 <= n <= all,
    ensures
        m.used(plus, times, n).len() <= m.used(plus, times, all).len(),
        forall|i: int|
            0 <= i < m.used(plus, times, n).len() ==> #[trigger] m.used(plus, times, n)[i] == m.used(
                plus,
                times,
                all,
            )[i],
    decreases all,
{
    if n < all {
        lemma_used_prefix(m, plus, times, n, all - 1);
    }
}

/// The sum over rows is the sum over the pixels that count.
proof fn lemma_rows_and_pixels<
    P: Fn(Double, Double) -> Double,
    T: Fn(Double, Double) -> Double,
    V: Fn(Double) -> Double,
>(
    m: &VisualMeasurement,
    rows: &ResidualRows,
    f: spec_fn(PixelTerm) -> Double,
    g: spec_fn(PixelTerm) -> Double,
    rf: spec_fn(int) -> Double,
    rg: spec_fn(int) -> Double,
    plus: P,
    times: T,
    inverse: V,
    n: int,
)
    requires
        m.has_rows(rows, plus, times),
        0 <= n <= rows.z@.len(),
        informative(m.opts.img_point_cov, of_one(inverse, m.opts.img_point_cov)),
        unchanged_by_nothing(
            f,
            g,
            m.used(plus, times, rows.z@.len() as int),
            of_one(inverse, m.opts.img_point_cov),
            plus,
            times,
            inverse,
        ),
        forall|i: int|
            0 <= i < rows.z@.len() ==> #[trigger] rf(i) == (match m.row_term(plus, times, i) {
                Some(t) => f(t),
                None => Double { bits: 0 },
            }),
        forall|i: int|
            0 <= i < rows.z@.len() ==> #[trigger] rg(i) == (match m.row_term(plus, times, i) {
                Some(t) => g(t),
                None => Double { bits: 0 },
            }),
    ensures
        weighted(rf, rg, rows.r@, sums(plus, times, inverse), n) == pixel_sum(
            f,
            g,
            m.used(plus, times, n),
            of_one(inverse, m.opts.img_point_cov),
            plus,
            times,
            m.used(plus, times, n).len() as int,
        ),
    decreases n,
{
    if n > 0 {
        lemma_rows_and_pixels(m, rows, f, g, rf, rg, plus, times, inverse, n - 1);
        let all = m.used(plus, times, rows.z@.len() as int);
        let before = m.used(plus, times, n - 1);
        let now = m.used(plus, times, n);
        let r_inv = of_one(inverse, m.opts.img_point_cov);
        let k = before.len() as int;
        assert(rf(n - 1) == rf(n - 1) && rg(n - 1) == rg(n - 1));
        assert(rows.r@[n - 1] == rows.r@[n - 1]);
        match m.row_term(plus, times, n - 1) {
            Some(t) => {
                lemma_pixel_sum_same(f, g, now, before, r_inv, plus, times, k);
                assert(now[k] == t);
            },
            None => {
                lemma_used_prefix(m, plus, times, n - 1, rows.z@.len() as int);
                lemma_pixel_sum_same(f, g, before, all, r_inv, plus, times, k);
            },
        }
    }
}

/// The measurement in sum is what its rows sum up to, in the entries of the error that
/// take part, if rows that say nothing change no sum. `r_inv` is one over the variance of
/// a pixel, which is positive and finite.
pub proof fn law_information_sums_up_the_rows<
    P: Fn(Double, Double) -> Double,
    T: Fn(Double, Double) -> Double,
    V: Fn(Double) -> Double,
>(
    m: &VisualMeasurement,
    rows: &ResidualRows,
    info: &Information,
    plus: P,
    times: T,
    inverse: V,
    a: int,
    c: int,
)
    requires
        m.has_rows(rows, plus, times),
        informative(m.opts.img_point_cov, of_one(inverse, m.opts.img_point_cov)),
        ({
            let terms = m.used(plus, times, rows.z@.len() as int);
            let exposure = m.opts.estimate_exposure;
            let r_inv = of_one(inverse, m.opts.img_point_cov);
            let (f, g) = (entry_factor(a, exposure), entry_factor(c, exposure));
            let e = residual_factor();
            &&& adds_up(info, terms, exposure, r_inv, plus, times, terms.len() as int)
            &&& unchanged_by_nothing(f, g, terms, r_inv, plus, times, inverse)
            &&& unchanged_by_nothing(f, e, terms, r_inv, plus, times, inverse)
            &&& unchanged_by_nothing(e, e, terms, r_inv, plus, times, inverse)
        }),
        0 <= a < PIXEL_DIM,
        0 <= c < PIXEL_DIM,
    ensures
        ({
            let op = sums(plus, times, inverse);
            let n = rows.z@.len() as int;
            &&& info.s.at(a, c) == weighted(
                column(&rows.h, a),
                column(&rows.h, c),
                rows.r@,
                op,
                n,
            )
            &&& info.b@[a] == weighted(column(&rows.h, a), rows_of(rows.z@), rows.r@, op, n)
            &&& info.e == weighted(rows_of(rows.z@), rows_of(rows.z@), rows.r@, op, n)
        }),
{
    let n = rows.z@.len() as int;
    let exposure = m.opts.estimate_exposure;
    let (f, g) = (entry_factor(a, exposure), entry_factor(c, exposure));
    let e = residual_factor();
    let (ra, rc, rz) = (column(&rows.h, a), column(&rows.h, c), rows_of(rows.z@));
    assert forall|i: int| 0 <= i < n implies #[trigger] ra(i) == (match m.row_term(plus, times, i) {
        Some(t) => f(t),
        None => Double { bits: 0 },
    }) by {
        assert(rows.h.has(i, a));
        assert(rows.h.at(i, a) == ra(i));
    }
    assert forall|i: int| 0 <= i < n implies #[trigger] rc(i) == (match m.row_term(plus, times, i) {
        Some(t) => g(t),
        None => Double { bits: 0 },
    }) by {
        assert(rows.h.has(i, c));
        assert(rows.h.at(i, c) == rc(i));
    }
    assert forall|i: int| 0 <= i < n implies #[trigger] rz(i) == (match m.row_term(plus, times, i) {
        Some(t) => e(t),
        None => Double { bits: 0 },
    }) by {
        assert(rows.z@[i] == rz(i));
    }
    lemma_rows_and_pixels(m, rows, f, g, ra, rc, plus, times, inverse, n);
    lemma_rows_and_pixels(m, rows, f, e, ra, rz, plus, times, inverse, n);
    lemma_rows_and_pixels(m, rows, e, e, rz, rz, plus, times, inverse, n);
    assert(info.s.has(a, c));
    assert(info.s.at(a, c) == info.s.at(a, c));
    assert(info.b@[a] == info.b@[a]);
}

} // verus!
