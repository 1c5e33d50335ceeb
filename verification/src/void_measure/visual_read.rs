//! What a visual point says in a view: where it is seen, and what its pixels differ by.

use vstd::prelude::*;

use crate::algebra::{dot, list_of, ring, Ring};
use crate::arith::{
    apply_count, apply_length, apply_two, binary, counted, counts, length_of, lengths, numbers,
    of_one, of_two, unary,
};
use crate::double::{Double, SIGN_BIT};
use crate::void_measure::visual_update::{
    beyond, bilinear_sample, depth_discontinuous, grey_between, image_gradient, is_term,
    jumps_around, pixel_by_point, pixel_term, projection_jacobian, slope_at, DepthImage,
    PixelTerm, PointReading,
};
use crate::void_types::motion::{place_point, placed, rotate3, rotated3};
use crate::void_types::state::State;
use crate::void_types::visual::{GrayImage, Intrinsics};

verus! {

/// The functions that points are read with.
pub struct ReadTools<P, T, V, I, L, N, W> {
    /// Addition.
    pub plus: P,
    /// Multiplication.
    pub times: T,
    /// Division.
    pub divide: V,
    /// One over a number.
    pub inverse: I,
    /// The length of a vector.
    pub length: L,
    /// A count as a number.
    pub number: N,
    /// An index as a number.
    pub whole: W,
}

/// A visual point with its reference patch, as it is expected in the view.
#[derive(Clone, Debug)]
pub struct PatchPoint {
    /// The position in the world.
    pub pos: [Double; 3],
    /// The normal in the world.
    pub normal: [Double; 3],
    /// The inverse exposure time of the reference.
    pub exposure: Double,
    /// The values of the reference patch, row by row.
    pub patch: Vec<Double>,
}

/// A view: where the camera is, what it sees and how.
pub struct Shot<'a> {
    /// The image.
    pub image: &'a GrayImage,
    /// The depth image, if there is one.
    pub depth: Option<DepthImage>,
    /// The camera.
    pub camera: Intrinsics,
    /// The rotation from the world to the camera, row by row.
    pub rot: [Double; 9],
    /// The world's origin in the camera.
    pub pos: [Double; 3],
    /// The inverse exposure time.
    pub exposure: Double,
    /// Pixels between the samples of a patch.
    pub scale: Double,
    /// The jump in depth (m) that hides a point.
    pub jump: Double,
}

impl<'a> Shot<'a> {
    /// Whether the images have their pixels.
    pub open spec fn wf(&self) -> bool {
        &&& 0 < self.image.spec_width() <= i64::MAX
        &&& 0 < self.image.spec_height() <= i64::MAX
        &&& self.depth matches Some(d) ==> d.wf()
    }
}

/// A matrix of three rows with rows and columns exchanged, row by row.
pub open spec fn turned_over(m: Seq<Double>) -> Seq<Double> {
    seq![m[0], m[3], m[6], m[1], m[4], m[7], m[2], m[5], m[8]]
}

/// A coordinate within an image has an index.
proof fn lemma_inside(u: Double, n: int)
    requires
        !beyond(u, n),
        0 < n <= i64::MAX,
    ensures
        u.floor_clamped() < i64::MAX,
{
    if u.bits >= SIGN_BIT && !u.spec_is_nan() {
        assert(u.magnitude() == 0);
        assert(u.exponent() == 0);
    }
}

impl<
    P: Fn(Double, Double) -> Double,
    T: Fn(Double, Double) -> Double,
    V: Fn(Double, Double) -> Double,
    I: Fn(Double) -> Double,
    L: Fn([Double; 3]) -> Double,
    N: Fn(usize) -> Double,
    W: Fn(i64) -> Double,
> ReadTools<P, T, V, I, L, N, W> {
    /// Whether the functions always have one result.
    pub open spec fn wf(&self) -> bool {
        &&& binary(self.plus)
        &&& binary(self.times)
        &&& binary(self.divide)
        &&& unary(self.inverse)
        &&& lengths(self.length)
        &&& counts(self.number)
        &&& numbers(self.whole)
    }

    /// Addition and multiplication.
    pub open spec fn op(&self) -> Ring {
        ring(self.plus, self.times)
    }

    /// The cosine between the line of sight to a point and its normal.
    pub open spec fn sight(&self, shot: &Shot, p: Seq<Double>, normal: Seq<Double>) -> Double {
        let back = Seq::new(3, |i: int| p[i].spec_neg());
        let size = length_of(self.length, back);
        let unit = Seq::new(3, |i: int| of_two(self.divide, back[i], size));
        dot(list_of(unit), list_of(rotated3(shot.rot@, normal, self.op())), self.op(), 3)
    }

    /// The pixel of a point in front of the camera.
    pub open spec fn pixel(&self, shot: &Shot, p: Seq<Double>) -> Seq<Double> {
        let op = self.op();
        let inv_z = of_one(self.inverse, p[2]);
        let k = shot.camera;
        seq![
            (op.plus)((op.times)((op.times)(k.fx, p[0]), inv_z), k.cx),
            (op.plus)((op.times)((op.times)(k.fy, p[1]), inv_z), k.cy),
        ]
    }

    /// A coordinate of sample `i` of a patch with `size` samples along each side, around
    /// a coordinate.
    pub open spec fn sample(&self, shot: &Shot, x: Double, i: int, size: usize) -> Double {
        let op = self.op();
        let off = (op.plus)(
            counted(self.number, i as usize),
            counted(self.number, (size / 2) as usize).spec_neg(),
        );
        (op.plus)(x, (op.times)(off, shot.scale))
    }

    /// Whether a sample of a patch says what the pixel there does; nothing outside the
    /// image.
    pub open spec fn says(
        &self,
        term: Option<PixelTerm>,
        shot: &Shot,
        point: &PatchPoint,
        p: Seq<Double>,
        size: usize,
        row: int,
        col: int,
    ) -> bool {
        let px = self.pixel(shot, p);
        let (u, v) = (self.sample(shot, px[0], col, size), self.sample(shot, px[1], row, size));
        match grey_between(shot.image, u, v, self.number, self.op()) {
            None => term is None,
            Some(value) => term matches Some(t) && is_term(
                t,
                value,
                point.patch@[row * size + col],
                shot.exposure,
                point.exposure,
                slope_at(shot.image, u, v, self.whole, self.op()),
                pixel_by_point(p, shot.camera, self.times, self.inverse),
                p,
                shot.rot@,
                self.op(),
            ),
        }
    }

    /// Whether a point was read: its depth and the angle it is seen at, and, where it is
    /// in front of the camera with a whole patch, whether the depth jumps there and what
    /// each sample says.
    pub open spec fn reads(&self, r: PointReading, shot: &Shot, point: &PatchPoint, size: usize) -> bool {
        let p = placed(shot.rot@, point.pos@, shot.pos@, self.op());
        let whole = !p[2].spec_le(Double { bits: 0 }) && point.patch@.len() == size * size;
        &&& r.reference_len == point.patch@.len()
        &&& r.depth == p[2]
        &&& r.view_cos == self.sight(shot, p, point.normal@)
        &&& r.discontinuous == (whole && jumps_around(
            &shot.depth,
            self.pixel(shot, p),
            p[2],
            shot.jump,
            self.plus,
        ))
        &&& r.pixels@.len() == size * size
        &&& whole ==> forall|row: int, col: int|
            0 <= row < size && 0 <= col < size ==> self.says(
                #[trigger] r.pixels@[row * size + col],
                shot,
                point,
                p,
                size,
                row,
                col,
            )
        &&& !whole ==> forall|k: int| 0 <= k < r.pixels@.len() ==> (#[trigger] r.pixels@[k]) is None
    }

    /// The camera's pose at a state, from the world to it: the rotation turned back, and
    /// the world's origin.
    pub fn camera_pose(&self, x: &State) -> (pose: ([Double; 9], [Double; 3]))
        requires
            self.wf(),
        ensures
            pose.0@ == turned_over(x.rot@),
            pose.1@ == Seq::new(
                3,
                |i: int| rotated3(turned_over(x.rot@), x.pos@, self.op())[i].spec_neg(),
            ),
    {
        let r = &x.rot;
        let rot = [r[0], r[3], r[6], r[1], r[4], r[7], r[2], r[5], r[8]];
        assert(rot@ =~= turned_over(r@));
        let p = rotate3(&rot, &x.pos, &self.plus, &self.times);
        let pos = [p[0].neg(), p[1].neg(), p[2].neg()];
        assert(pos@ =~= Seq::new(
            3,
            |i: int| rotated3(turned_over(x.rot@), x.pos@, self.op())[i].spec_neg(),
        ));
        (rot, pos)
    }

    /// The cosine between the line of sight to a point and its normal.
    fn sight_of(&self, shot: &Shot, p: &[Double; 3], normal: &[Double; 3]) -> (c: Double)
        requires
            self.wf(),
        ensures
            c == self.sight(shot, p@, normal@),
    {
        let back = [p[0].neg(), p[1].neg(), p[2].neg()];
        let size = apply_length(&self.length, back);
        let unit = [
            apply_two(&self.divide, back[0], size),
            apply_two(&self.divide, back[1], size),
            apply_two(&self.divide, back[2], size),
        ];
        let n = rotate3(&shot.rot, normal, &self.plus, &self.times);
        let x = apply_two(&self.times, unit[0], n[0]);
        let y = apply_two(&self.times, unit[1], n[1]);
        let z = apply_two(&self.times, unit[2], n[2]);
        let xy = apply_two(&self.plus, apply_two(&self.plus, Double::zero(), x), y);
        proof {
            reveal_with_fuel(dot, 4);
            assert(back@ =~= Seq::new(3, |i: int| p@[i].spec_neg()));
            assert(unit@ =~= Seq::new(3, |i: int| of_two(self.divide, back@[i], size)));
        }
        apply_two(&self.plus, xy, z)
    }

    /// A coordinate of a sample.
    fn sample_of(&self, shot: &Shot, x: Double, i: usize, size: usize) -> (c: Double)
        requires
            self.wf(),
        ensures
            c == self.sample(shot, x, i as int, size),
    {
        let half = apply_count(&self.number, size / 2);
        let off = apply_two(&self.plus, apply_count(&self.number, i), half.neg());
        apply_two(&self.plus, x, apply_two(&self.times, off, shot.scale))
    }

    /// Reads a point, of whose patch each side has `size` samples.
    pub fn read(&self, shot: &Shot, point: &PatchPoint, size: usize) -> (r: PointReading)
        requires
            self.wf(),
            shot.wf(),
            size * size <= usize::MAX,
        ensures
            self.reads(r, shot, point, size),
    {
        let p = place_point(&shot.rot, &point.pos, &shot.pos, &self.plus, &self.times);
        let view_cos = self.sight_of(shot, &p, &point.normal);
        let n: usize = size * size;
        let mut pixels: Vec<Option<PixelTerm>> = Vec::new();
        let px = match shot.camera.project(&p, &self.plus, &self.times, &self.inverse) {
            Some(px) if point.patch.len() == n => px,
            _ => {
                while pixels.len() < n
                    invariant
                        pixels@.len() <= n,
                        forall|k: int|
                            0 <= k < pixels@.len() ==> (#[trigger] pixels@[k]) is None,
                    decreases n - pixels@.len(),
                {
                    pixels.push(None);
                }
                return PointReading {
                    reference_len: point.patch.len(),
                    depth: p[2],
                    view_cos,
                    discontinuous: false,
                    pixels,
                };
            },
        };
        assert(px@ =~= self.pixel(shot, p@));
        let discontinuous = depth_discontinuous(&shot.depth, &px, p[2], shot.jump, &self.plus);
        let j = projection_jacobian(&p, &shot.camera, &self.times, &self.inverse);
        let mut row: usize = 0;
        assert(0 * size == 0) by (nonlinear_arith);
        while row < size
            invariant
                self.wf(),
                shot.wf(),
                n == size * size,
                row <= size,
                point.patch@.len() == n,
                px@ == self.pixel(shot, p@),
                j@ == pixel_by_point(p@, shot.camera, self.times, self.inverse),
                pixels@.len() == row * size,
                forall|a: int, b: int|
                    0 <= a < row && 0 <= b < size ==> self.says(
                        #[trigger] pixels@[a * size + b],
                        shot,
                        point,
                        p@,
                        size,
                        a,
                        b,
                    ),
            decreases size - row,
        {
            let mut col: usize = 0;
            while col < size
                invariant
                    self.wf(),
                    shot.wf(),
                    n == size * size,
                    row < size,
                    col <= size,
                    point.patch@.len() == n,
                    px@ == self.pixel(shot, p@),
                    j@ == pixel_by_point(p@, shot.camera, self.times, self.inverse),
                    pixels@.len() == row * size + col,
                    forall|a: int, b: int|
                        0 <= a && 0 <= b < size && (a < row || (a == row && b < col)) ==> self.says(
                            #[trigger] pixels@[a * size + b],
                            shot,
                            point,
                            p@,
                            size,
                            a,
                            b,
                        ),
                decreases size - col,
            {
                let ghost before = pixels@;
                proof {
                    crate::matrix::lemma_place_in_range(
                        row as int,
                        col as int,
                        size as int,
                        size as int,
                    );
                }
                let u = self.sample_of(shot, px[0], col, size);
                let v = self.sample_of(shot, px[1], row, size);
                let grey = bilinear_sample(
                    shot.image,
                    u,
                    v,
                    &self.number,
                    &self.plus,
                    &self.times,
                );
                let term = match grey {
                    None => None,
                    Some(value) => {
                        proof {
                            lemma_inside(u, shot.image.spec_width() as int);
                            lemma_inside(v, shot.image.spec_height() as int);
                        }
                        let slope = image_gradient(
                            shot.image,
                            u,
                            v,
                            &self.whole,
                            &self.plus,
                            &self.times,
                        );
                        Some(
                            pixel_term(
                                value,
                                point.patch[row * size + col],
                                shot.exposure,
                                point.exposure,
                                &slope,
                                &j,
                                &p,
                                &shot.rot,
                                &self.plus,
                                &self.times,
                            ),
                        )
                    },
                };
                assert(self.says(term, shot, point, p@, size, row as int, col as int));
                pixels.push(term);
                proof {
                    assert forall|a: int, b: int|
                        0 <= a && 0 <= b < size && (a < row || (a == row && b < col + 1)) implies self.says(
                        #[trigger] pixels@[a * size + b],
                        shot,
                        point,
                        p@,
                        size,
                        a,
                        b,
                    ) by {
                        if a < row {
                            assert(a * size + b < row * size) by (nonlinear_arith)
                                requires
                                    0 <= a,
                                    a + 1 <= row,
                                    0 <= b < size,
                            ;
                        }
                        assert(a * size >= 0) by (nonlinear_arith)
                            requires
                                0 <= a,
                                0 <= size,
                        ;
                        if a < row || b < col {
                            assert(pixels@[a * size + b] == before[a * size + b]);
                        }
                    }
                }
                col += 1;
            }
            row += 1;
            assert((row - 1) * size + size == row * size) by (nonlinear_arith)
                requires
                    row >= 1,
            ;
        }
        PointReading { reference_len: point.patch.len(), depth: p[2], view_cos, discontinuous, pixels }
    }
}

} // verus!
