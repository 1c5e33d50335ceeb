//! Grey images and the pinhole camera.

use vstd::prelude::*;

use crate::algebra::ring;
use crate::arith::{apply_one, apply_two, binary, of_one, of_two, unary};
use crate::double::{Double, ONE_BITS};
use crate::matrix::Matrix;

verus! {

/// A grey image with one byte for each pixel, stored by rows.
#[derive(Debug, PartialEq, Eq)]
pub struct GrayImage {
    width: usize,
    height: usize,
    data: Vec<u8>,
}

impl GrayImage {
    /// The data has one byte for each pixel.
    #[verifier::type_invariant]
    spec fn inv(self) -> bool {
        self.data.len() == self.width * self.height
    }

    /// The number of columns.
    pub closed spec fn spec_width(&self) -> usize {
        self.width
    }

    /// The number of rows.
    pub closed spec fn spec_height(&self) -> usize {
        self.height
    }

    /// The bytes, row after row.
    pub closed spec fn bytes(&self) -> Seq<u8> {
        self.data@
    }

    /// The pixel in column `x` and row `y`; none outside the image.
    pub open spec fn pixel(&self, x: int, y: int) -> Option<u8> {
        if 0 <= x < self.spec_width() && 0 <= y < self.spec_height() {
            Some(self.bytes()[y * self.spec_width() + x])
        } else {
            None
        }
    }

    /// An image of the given size.
    pub fn new(width: usize, height: usize, data: Vec<u8>) -> (image: GrayImage)
        requires
            data@.len() == width * height,
        ensures
            image.spec_width() == width,
            image.spec_height() == height,
            image.bytes() == data@,
    {
        GrayImage { width, height, data }
    }

    /// The number of columns.
    #[verifier::when_used_as_spec(spec_width)]
    pub fn width(&self) -> (w: usize)
        ensures
            w == self.spec_width(),
    {
        self.width
    }

    /// The number of rows.
    #[verifier::when_used_as_spec(spec_height)]
    pub fn height(&self) -> (h: usize)
        ensures
            h == self.spec_height(),
    {
        self.height
    }

    /// The bytes, row after row.
    pub fn as_slice(&self) -> (s: &[u8])
        ensures
            s@ == self.bytes(),
            s@.len() == self.spec_width() * self.spec_height(),
    {
        proof {
            use_type_invariant(self);
        }
        self.data.as_slice()
    }

    /// The pixel in column `x` and row `y`; none outside the image.
    pub fn get(&self, x: usize, y: usize) -> (p: Option<u8>)
        ensures
            p == self.pixel(x as int, y as int),
    {
        if x < self.width && y < self.height {
            proof {
                use_type_invariant(self);
                crate::matrix::lemma_place_in_range(
                    y as int,
                    x as int,
                    self.height as int,
                    self.width as int,
                );
                assert(self.height * self.width == self.width * self.height) by (nonlinear_arith);
            }
            Some(self.data[y * self.width + x])
        } else {
            None
        }
    }
}

impl Clone for GrayImage {
    fn clone(&self) -> (image: Self)
        ensures
            image.spec_width() == self.spec_width(),
            image.spec_height() == self.spec_height(),
            image.bytes() == self.bytes(),
    {
        proof {
            use_type_invariant(self);
        }
        let data = self.data.clone();
        assert(data@ =~= self.data@);
        GrayImage { width: self.width, height: self.height, data }
    }
}

/// The difference of the pixels on both sides of `(x, y)`, along the rows and
/// along the columns; zero along an axis where one side is missing.
pub open spec fn gradient(image: &GrayImage, x: int, y: int) -> (int, int) {
    let row = clamp_index(y, image.spec_height() as int);
    let col = clamp_index(x, image.spec_width() as int);
    (
        if 0 < x && x + 1 < image.spec_width() {
            image.pixel(x + 1, row)->0 - image.pixel(x - 1, row)->0
        } else {
            0
        },
        if 0 < y && y + 1 < image.spec_height() {
            image.pixel(col, y + 1)->0 - image.pixel(col, y - 1)->0
        } else {
            0
        },
    )
}

/// The index nearest to `k` among `n`.
pub open spec fn clamp_index(k: int, n: int) -> int {
    if k < 0 {
        0
    } else if k >= n {
        n - 1
    } else {
        k
    }
}

/// The two central differences from which the gradient's length is computed.
pub fn gray_gradient(gray: &GrayImage, x: usize, y: usize) -> (g: (i32, i32))
    requires
        gray.spec_width() > 0,
        gray.spec_height() > 0,
        x < usize::MAX,
        y < usize::MAX,
    ensures
        (g.0 as int, g.1 as int) == gradient(gray, x as int, y as int),
{
    let w: usize = gray.width();
    let h: usize = gray.height();
    let col: usize = if x < w {
        x
    } else {
        w - 1
    };
    let row: usize = if y < h {
        y
    } else {
        h - 1
    };
    let gx: i32 = if x > 0 && x + 1 < w {
        pixel_or_zero(gray, x + 1, row) - pixel_or_zero(gray, x - 1, row)
    } else {
        0
    };
    let gy: i32 = if y > 0 && y + 1 < h {
        pixel_or_zero(gray, col, y + 1) - pixel_or_zero(gray, col, y - 1)
    } else {
        0
    };
    (gx, gy)
}

/// The pixel at `(x, y)`, or zero outside the image.
pub fn pixel_or_zero(image: &GrayImage, x: usize, y: usize) -> (p: i32)
    ensures
        0 <= p <= 255,
        p == (match image.pixel(x as int, y as int) {
            Some(b) => b as int,
            None => 0,
        }),
{
    match image.get(x, y) {
        Some(b) => b as i32,
        None => 0,
    }
}

/// A pinhole camera without distortion (pixels).
#[derive(Clone, Copy, Debug, PartialEq, Eq, Structural)]
pub struct Intrinsics {
    /// Focal length along the rows.
    pub fx: Double,
    /// Focal length along the columns.
    pub fy: Double,
    /// Column of the principal point.
    pub cx: Double,
    /// Row of the principal point.
    pub cy: Double,
}

impl Intrinsics {
    /// A camera with the given focal lengths and principal point.
    pub fn new(fx: Double, fy: Double, cx: Double, cy: Double) -> (k: Intrinsics)
        ensures
            k == (Intrinsics { fx, fy, cx, cy }),
    {
        Intrinsics { fx, fy, cx, cy }
    }

    /// The pixel of a point in the camera's coordinates; none for a point that is
    /// not in front.
    pub fn project<
        P: Fn(Double, Double) -> Double,
        T: Fn(Double, Double) -> Double,
        V: Fn(Double) -> Double,
    >(&self, p: &[Double; 3], plus: &P, times: &T, inverse: &V) -> (px: Option<[Double; 2]>)
        requires
            binary(*plus),
            binary(*times),
            unary(*inverse),
        ensures
            ({
                let op = ring(*plus, *times);
                let inv_z = of_one(*inverse, p@[2]);
                match px {
                    Some(q) => {
                        &&& !p@[2].spec_le(Double { bits: 0 })
                        &&& q@[0] == (op.plus)(
                            (op.times)((op.times)(self.fx, p@[0]), inv_z),
                            self.cx,
                        )
                        &&& q@[1] == (op.plus)(
                            (op.times)((op.times)(self.fy, p@[1]), inv_z),
                            self.cy,
                        )
                    },
                    None => p@[2].spec_le(Double { bits: 0 }),
                }
            }),
    {
        if p[2].le(Double::zero()) {
            return None;
        }
        let inv_z = apply_one(inverse, p[2]);
        let u = apply_two(times, apply_two(times, self.fx, p[0]), inv_z);
        let v = apply_two(times, apply_two(times, self.fy, p[1]), inv_z);
        Some([apply_two(plus, u, self.cx), apply_two(plus, v, self.cy)])
    }

    /// The direction of a pixel in the camera's coordinates, at depth one.
    pub fn unproject<P: Fn(Double, Double) -> Double, V: Fn(Double, Double) -> Double>(
        &self,
        px: &[Double; 2],
        plus: &P,
        divide: &V,
    ) -> (dir: [Double; 3])
        requires
            binary(*plus),
            binary(*divide),
        ensures
            dir@ == seq![
                of_two(*divide, of_two(*plus, px@[0], self.cx.spec_neg()), self.fx),
                of_two(*divide, of_two(*plus, px@[1], self.cy.spec_neg()), self.fy),
                Double { bits: ONE_BITS },
            ],
    {
        let x = apply_two(divide, apply_two(plus, px[0], self.cx.neg()), self.fx);
        let y = apply_two(divide, apply_two(plus, px[1], self.cy.neg()), self.fy);
        let dir = [x, y, Double::one()];
        assert(dir@ =~= seq![x, y, Double { bits: ONE_BITS }]);
        dir
    }

    /// The matrix that projects onto pixels.
    pub fn camera_matrix(&self) -> (k: Matrix)
        ensures
            k.shaped(3, 3),
            forall|i: int, j: int|
                k.has(i, j) ==> #[trigger] k.at(i, j) == self.entry(i, j),
    {
        let mut k = Matrix::filled(3, 3, Double::zero());
        k.set(0, 0, self.fx);
        k.set(0, 2, self.cx);
        k.set(1, 1, self.fy);
        k.set(1, 2, self.cy);
        k.set(2, 2, Double::one());
        k
    }

    /// Entry `(i, j)` of the matrix that projects onto pixels.
    pub open spec fn entry(&self, i: int, j: int) -> Double {
        if i == 0 && j == 0 {
            self.fx
        } else if i == 0 && j == 2 {
            self.cx
        } else if i == 1 && j == 1 {
            self.fy
        } else if i == 1 && j == 2 {
            self.cy
        } else if i == 2 && j == 2 {
            Double { bits: ONE_BITS }
        } else {
            Double { bits: 0 }
        }
    }
}

/// What a visual update knows of a frame.
#[derive(Clone, Copy, Debug, PartialEq, Eq, Structural)]
pub struct VisualState {
    /// The frame's number.
    pub frame_id: u32,
    /// The inverse exposure time, relative to the first frame.
    pub inv_expo_time: Double,
}

impl VisualState {
    /// The state of a frame.
    pub fn new(frame_id: u32, inv_expo_time: Double) -> (s: VisualState)
        ensures
            s == (VisualState { frame_id, inv_expo_time }),
    {
        VisualState { frame_id, inv_expo_time }
    }
}

} // verus!
