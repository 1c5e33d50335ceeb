//! Patches of an image around a pixel, in several sampling distances.

use vstd::prelude::*;

use crate::algebra::{dot, dot_lists, list_of, ring, sum_list, summed};
use crate::arith::{
    apply_count, apply_one, apply_two, binary, counted, counts, of_one, of_two, unary,
};
use crate::double::Double;
use crate::void_map::options::VoxelMapOptions;
use crate::void_map::plane::TINY;
use crate::void_types::visual::GrayImage;

verus! {

/// Patches of one size around a pixel, sampled ever more coarsely.
#[derive(Clone, Debug)]
pub struct PatchPyramid {
    /// The grey values of each level, row after row.
    pub levels: Vec<Vec<Double>>,
    /// The sampling distance of each level.
    pub scale: Vec<u32>,
    /// Edge length of a patch (samples).
    pub patch_size: usize,
}

impl PatchPyramid {
    /// The grey values of the finest level.
    pub fn level0(&self) -> (data: &Vec<Double>)
        requires
            self.levels@.len() > 0,
        ensures
            data@ == self.levels@[0]@,
    {
        &self.levels[0]
    }

    /// The grey values of a level, or of the coarsest.
    pub fn level_at(&self, level: usize) -> (data: &Vec<Double>)
        requires
            self.levels.len() > 0,
        ensures
            data@ == self.levels@[if level < self.levels@.len() {
                level as int
            } else {
                self.levels@.len() - 1
            }]@,
    {
        let last: usize = self.levels.len() - 1;
        if level < last {
            &self.levels[level]
        } else {
            &self.levels[last]
        }
    }

    /// The mean of the finest level; zero without values.
    pub fn level0_mean<
        N: Fn(usize) -> Double,
        P: Fn(Double, Double) -> Double,
        T: Fn(Double, Double) -> Double,
        V: Fn(Double, Double) -> Double,
    >(&self, number: &N, plus: &P, times: &T, divide: &V) -> (m: Double)
        requires
            self.levels@.len() > 0,
            counts(*number),
            binary(*plus),
            binary(*times),
            binary(*divide),
        ensures
            m == (if self.levels@[0]@.len() == 0 {
                Double { bits: 0 }
            } else {
                list_mean(
                    self.levels@[0]@,
                    self.levels@[0]@.len() as int,
                    *number,
                    *plus,
                    *times,
                    *divide,
                )
            }),
    {
        let data = &self.levels[0];
        let n: usize = data.len();
        if n == 0 {
            return Double::zero();
        }
        mean_of_list(data, n, number, plus, times, divide)
    }

    /// The normalized correlation of the finest levels of two patches; zero where
    /// one of them is flat.
    pub fn ncc_level0<
        N: Fn(usize) -> Double,
        P: Fn(Double, Double) -> Double,
        T: Fn(Double, Double) -> Double,
        V: Fn(Double, Double) -> Double,
        R: Fn(Double) -> Double,
    >(
        &self,
        other: &PatchPyramid,
        number: &N,
        plus: &P,
        times: &T,
        divide: &V,
        root: &R,
    ) -> (r: Double)
        requires
            self.levels@.len() > 0,
            other.levels@.len() > 0,
            counts(*number),
            binary(*plus),
            binary(*times),
            binary(*divide),
            unary(*root),
        ensures
            r == likeness(
                self.levels@[0]@,
                other.levels@[0]@,
                *number,
                *plus,
                *times,
                *divide,
                *root,
            ),
    {
        let a = &self.levels[0];
        let b = &other.levels[0];
        let n: usize = if a.len() < b.len() {
            a.len()
        } else {
            b.len()
        };
        if n == 0 {
            return Double::zero();
        }
        let da = centered(a, n, number, plus, times, divide);
        let db = centered(b, n, number, plus, times, divide);
        let up = dot_lists(&da, &db, plus, times);
        let down1 = dot_lists(&da, &da, plus, times);
        let down2 = dot_lists(&db, &db, plus, times);
        let denom = apply_one(root, apply_two(times, down1, down2));
        if denom.lt(Double { bits: TINY }) {
            Double::zero()
        } else {
            apply_two(divide, up, denom)
        }
    }
}

/// The mean of the first `n` numbers of a list.
pub open spec fn list_mean<
    N: Fn(usize) -> Double,
    P: Fn(Double, Double) -> Double,
    T: Fn(Double, Double) -> Double,
    V: Fn(Double, Double) -> Double,
>(v: Seq<Double>, n: int, number: N, plus: P, times: T, divide: V) -> Double {
    of_two(
        divide,
        summed(list_of(v), ring(plus, times), n),
        counted(number, n as usize),
    )
}

/// The first `n` numbers of a list, less their mean.
pub open spec fn less_mean<
    N: Fn(usize) -> Double,
    P: Fn(Double, Double) -> Double,
    T: Fn(Double, Double) -> Double,
    V: Fn(Double, Double) -> Double,
>(v: Seq<Double>, n: int, number: N, plus: P, times: T, divide: V) -> Seq<Double> {
    Seq::new(
        n as nat,
        |k: int| of_two(plus, v[k], list_mean(v, n, number, plus, times, divide).spec_neg()),
    )
}

/// The normalized correlation of two lists, as far as both go; zero where one of
/// them is flat.
pub open spec fn likeness<
    N: Fn(usize) -> Double,
    P: Fn(Double, Double) -> Double,
    T: Fn(Double, Double) -> Double,
    V: Fn(Double, Double) -> Double,
    R: Fn(Double) -> Double,
>(
    a: Seq<Double>,
    b: Seq<Double>,
    number: N,
    plus: P,
    times: T,
    divide: V,
    root: R,
) -> Double {
    let n = if a.len() < b.len() {
        a.len() as int
    } else {
        b.len() as int
    };
    if n == 0 {
        Double { bits: 0 }
    } else {
        let op = ring(plus, times);
        let da = list_of(less_mean(a, n, number, plus, times, divide));
        let db = list_of(less_mean(b, n, number, plus, times, divide));
        let denom = of_one(root, of_two(times, dot(da, da, op, n), dot(db, db, op, n)));
        if denom.spec_lt(Double { bits: TINY }) {
            Double { bits: 0 }
        } else {
            of_two(divide, dot(da, db, op, n), denom)
        }
    }
}

/// The mean of the first `n` numbers of a list.
fn mean_of_list<
    N: Fn(usize) -> Double,
    P: Fn(Double, Double) -> Double,
    T: Fn(Double, Double) -> Double,
    V: Fn(Double, Double) -> Double,
>(v: &Vec<Double>, n: usize, number: &N, plus: &P, times: &T, divide: &V) -> (m: Double)
    requires
        n <= v@.len(),
        counts(*number),
        binary(*plus),
        binary(*divide),
    ensures
        m == list_mean(v@, n as int, *number, *plus, *times, *divide),
{
    let sum = sum_list(v, n, plus, times);
    apply_two(divide, sum, apply_count(number, n))
}

/// The first `n` numbers of a list, less their mean.
fn centered<
    N: Fn(usize) -> Double,
    P: Fn(Double, Double) -> Double,
    T: Fn(Double, Double) -> Double,
    V: Fn(Double, Double) -> Double,
>(v: &Vec<Double>, n: usize, number: &N, plus: &P, times: &T, divide: &V) -> (c: Vec<Double>)
    requires
        n <= v@.len(),
        counts(*number),
        binary(*plus),
        binary(*divide),
    ensures
        c@ == less_mean(v@, n as int, *number, *plus, *times, *divide),
{
    let off = mean_of_list(v, n, number, plus, times, divide).neg();
    let mut c: Vec<Double> = Vec::new();
    let mut k: usize = 0;
    while k < n
        invariant
            k <= n <= v@.len(),
            binary(*plus),
            off == list_mean(v@, n as int, *number, *plus, *times, *divide).spec_neg(),
            c@ == less_mean(v@, n as int, *number, *plus, *times, *divide).take(k as int),
        decreases n - k,
    {
        c.push(apply_two(plus, v[k], off));
        assert(c@ =~= less_mean(v@, n as int, *number, *plus, *times, *divide).take(k + 1));
        k += 1;
    }
    assert(c@ =~= less_mean(v@, n as int, *number, *plus, *times, *divide));
    c
}

/// The four pixels between which a sample is interpolated: upper left, upper
/// right, lower left, lower right.
#[derive(Clone, Copy, Debug, PartialEq, Eq, Structural)]
pub struct Corners {
    /// Upper left.
    pub tl: u8,
    /// Upper right.
    pub tr: u8,
    /// Lower left.
    pub bl: u8,
    /// Lower right.
    pub br: u8,
}

/// Two to the power of a level.
pub open spec fn stride(level: int) -> int
    decreases level,
{
    if level <= 0 {
        1
    } else {
        2 * stride(level - 1)
    }
}

/// The pixel at `(u, v)`, or zero outside the image.
pub open spec fn grey_at(image: &GrayImage, u: int, v: int) -> u8 {
    match image.pixel(u, v) {
        Some(b) => b,
        None => 0,
    }
}

/// The corners of a sample at `(u, v)`.
pub open spec fn corners_at(image: &GrayImage, u: int, v: int, step: int) -> Corners {
    Corners {
        tl: grey_at(image, u, v),
        tr: grey_at(image, u + step, v),
        bl: grey_at(image, u, v + step),
        br: grey_at(image, u + step, v + step),
    }
}

/// The first multiple of the step that a coordinate reaches from below, moved to
/// sample `k` of a patch.
pub open spec fn sample_position(coordinate: Double, step: int, patch_size: int, k: int) -> int {
    (coordinate.floor_clamped() / step) * step - (patch_size / 2) * step + k * step
}

/// The pixel at `(u, v)`, or zero outside the image.
pub fn grey(image: &GrayImage, u: i128, v: i128) -> (b: u8)
    ensures
        b == grey_at(image, u as int, v as int),
{
    if u < 0 || v < 0 || u >= image.width() as i128 || v >= image.height() as i128 {
        return 0;
    }
    match image.get(u as usize, v as usize) {
        Some(b) => b,
        None => 0,
    }
}

/// The corners of a sample at `(u, v)`.
fn corners(image: &GrayImage, u: i128, v: i128, step: i128) -> (c: Corners)
    requires
        -0x1000_0000_0000_0000_0000_0000_0000 <= u <= 0x1000_0000_0000_0000_0000_0000_0000,
        -0x1000_0000_0000_0000_0000_0000_0000 <= v <= 0x1000_0000_0000_0000_0000_0000_0000,
        0 <= step <= 0x8000_0000,
    ensures
        c == corners_at(image, u as int, v as int, step as int),
{
    Corners {
        tl: grey(image, u, v),
        tr: grey(image, u + step, v),
        bl: grey(image, u, v + step),
        br: grey(image, u + step, v + step),
    }
}

/// The largest multiple of the step that is not above a number.
fn round_down(k: i64, step: i128) -> (r: i128)
    requires
        0 < step <= 0x8000_0000,
    ensures
        r == (k as int / step as int) * step,
        k - step < r <= k,
{
    let k: i128 = k as i128;
    let ghost (a, s) = (k as int, step as int);
    if k >= 0 {
        let rem: i128 = k % step;
        proof {
            vstd::arithmetic::div_mod::lemma_fundamental_div_mod(a, s);
            assert((a / s) * s == s * (a / s)) by (nonlinear_arith);
        }
        return k - rem;
    }
    let up: i128 = -k;
    let rem: i128 = up % step;
    let r: i128 = if rem == 0 {
        k
    } else {
        k - (step - rem)
    };
    proof {
        let q = if rem == 0 {
            -((up as int) / s)
        } else {
            -((up as int) / s) - 1
        };
        vstd::arithmetic::div_mod::lemma_fundamental_div_mod(up as int, s);
        assert(r == q * s) by (nonlinear_arith)
            requires
                up == s * ((up as int) / s) + rem,
                k == -up,
                rem == 0 ==> r == k && q == -((up as int) / s),
                rem != 0 ==> r == k - (s - rem) && q == -((up as int) / s) - 1,
        ;
        vstd::arithmetic::div_mod::lemma_mod_multiples_basic(q, s);
        lemma_same_remainder(a, s, r as int);
    }
    r
}

/// The multiple of `s` that lies less than `s` below `a` is unique.
proof fn lemma_same_remainder(a: int, s: int, m: int)
    requires
        s > 0,
        m % s == 0,
        a - s < m <= a,
    ensures
        m == (a / s) * s,
{
    let q = m / s;
    assert(m == s * q) by (nonlinear_arith)
        requires
            s > 0,
            m % s == 0,
            q == m / s,
    ;
    assert(a / s == q) by (nonlinear_arith)
        requires
            s > 0,
            a - s < s * q <= a,
    ;
    assert(s * q == q * s) by (nonlinear_arith);
}

/// The corners of all samples of the patches around a pixel: by level, then by
/// row.
pub fn extract_patch_pyramid(image: &GrayImage, px: &[Double; 2], opts: &VoxelMapOptions) -> (levels:
    Vec<Vec<Vec<Corners>>>)
    requires
        opts.patch_pyramid_level <= 32,
    ensures
        levels@.len() == opts.patch_pyramid_level,
        forall|l: int|
            0 <= l < levels@.len() ==> (#[trigger] levels@[l])@.len() == opts.patch_size,
        forall|l: int, y: int|
            0 <= l < levels@.len() && 0 <= y < opts.patch_size ==> (
            #[trigger] levels@[l]@[y])@.len() == opts.patch_size,
        forall|l: int, y: int, x: int|
            0 <= l < levels@.len() && 0 <= y < opts.patch_size && 0 <= x < opts.patch_size
                ==> #[trigger] levels@[l]@[y]@[x] == corners_at(
                image,
                sample_position(px@[0], stride(l), opts.patch_size as int, x),
                sample_position(px@[1], stride(l), opts.patch_size as int, y),
                stride(l),
            ),
{
    let mut levels: Vec<Vec<Vec<Corners>>> = Vec::new();
    let mut step: i128 = 1;
    let mut l: usize = 0;
    assert(stride_left(0) == 0x8000_0000) by {
        reveal_with_fuel(stride_left, 33);
    }
    while l < opts.patch_pyramid_level
        invariant
            l <= opts.patch_pyramid_level <= 32,
            step == stride(l as int),
            l < 32 ==> 0 < step <= 0x8000_0000,
            0 < step <= 0x1_0000_0000,
            l < 32 ==> step * stride_left(l as int) == 0x8000_0000,
            levels@.len() == l,
            forall|k: int| 0 <= k < l ==> (#[trigger] levels@[k])@.len() == opts.patch_size,
            forall|k: int, y: int|
                0 <= k < l && 0 <= y < opts.patch_size ==> (#[trigger] levels@[k]@[y])@.len()
                    == opts.patch_size,
            forall|k: int, y: int, x: int|
                0 <= k < l && 0 <= y < opts.patch_size && 0 <= x < opts.patch_size
                    ==> #[trigger] levels@[k]@[y]@[x] == corners_at(
                    image,
                    sample_position(px@[0], stride(k), opts.patch_size as int, x),
                    sample_position(px@[1], stride(k), opts.patch_size as int, y),
                    stride(k),
                ),
        decreases opts.patch_pyramid_level - l,
    {
        let level = extract_level(image, px, opts.patch_size, step);
        levels.push(level);
        proof {
            if l + 1 < 32 {
                lemma_stride_left(l as int);
                assert((2 * step) * stride_left(l + 1) == step * stride_left(l as int)) by (nonlinear_arith)
                    requires
                        stride_left(l as int) == 2 * stride_left(l + 1),
                ;
                assert(2 * step <= 0x8000_0000) by (nonlinear_arith)
                    requires
                        (2 * step) * stride_left(l + 1) == 0x8000_0000,
                        stride_left(l + 1) >= 1,
                        step > 0,
                ;
            }
        }
        step = 2 * step;
        l += 1;
    }
    levels
}

/// Two to the number of levels that follow among the first thirty-two.
spec fn stride_left(l: int) -> int
    decreases 31 - l,
{
    if l >= 31 {
        1
    } else {
        2 * stride_left(l + 1)
    }
}

/// Each level halves what is left.
proof fn lemma_stride_left(l: int)
    requires
        0 <= l < 31,
    ensures
        stride_left(l) == 2 * stride_left(l + 1),
        stride_left(l + 1) >= 1,
    decreases 31 - l,
{
    if l < 30 {
        lemma_stride_left(l + 1);
    }
}

/// The corners of the samples of one patch, by row.
fn extract_level(image: &GrayImage, px: &[Double; 2], patch_size: usize, step: i128) -> (level: Vec<
    Vec<Corners>,
>)
    requires
        0 < step <= 0x8000_0000,
    ensures
        level@.len() == patch_size,
        forall|y: int| 0 <= y < patch_size ==> (#[trigger] level@[y])@.len() == patch_size,
        forall|y: int, x: int|
            0 <= y < patch_size && 0 <= x < patch_size ==> #[trigger] level@[y]@[x] == corners_at(
                image,
                sample_position(px@[0], step as int, patch_size as int, x),
                sample_position(px@[1], step as int, patch_size as int, y),
                step as int,
            ),
{
    let half: i128 = (patch_size / 2) as i128;
    let start_u: i128 = round_down(px[0].floor_i64(), step);
    let start_v: i128 = round_down(px[1].floor_i64(), step);
    let mut level: Vec<Vec<Corners>> = Vec::new();
    let mut y: usize = 0;
    proof {
        lemma_offset_bound(half as int, step as int);
    }
    while y < patch_size
        invariant
            y <= patch_size,
            0 < step <= 0x8000_0000,
            half == patch_size as int / 2,
            0 <= half * step <= 0x8000_0000_0000_0000_8000_0000,
            start_u == (px@[0].floor_clamped() / (step as int)) * step,
            start_v == (px@[1].floor_clamped() / (step as int)) * step,
            -0x8000_0000_8000_0000_0000 <= start_u <= 0x8000_0000_8000_0000_0000,
            -0x8000_0000_8000_0000_0000 <= start_v <= 0x8000_0000_8000_0000_0000,
            level@.len() == y,
            forall|k: int| 0 <= k < y ==> (#[trigger] level@[k])@.len() == patch_size,
            forall|k: int, x: int|
                0 <= k < y && 0 <= x < patch_size ==> #[trigger] level@[k]@[x] == corners_at(
                    image,
                    sample_position(px@[0], step as int, patch_size as int, x),
                    sample_position(px@[1], step as int, patch_size as int, k),
                    step as int,
                ),
        decreases patch_size - y,
    {
        proof {
            lemma_offset_bound(y as int, step as int);
        }
        let v: i128 = start_v - half * step + y as i128 * step;
        let mut row: Vec<Corners> = Vec::new();
        let mut x: usize = 0;
        while x < patch_size
            invariant
                x <= patch_size,
                y < patch_size,
                0 < step <= 0x8000_0000,
                half == patch_size as int / 2,
                0 <= half * step <= 0x8000_0000_0000_0000_8000_0000,
                start_u == (px@[0].floor_clamped() / (step as int)) * step,
                -0x8000_0000_8000_0000_0000 <= start_u <= 0x8000_0000_8000_0000_0000,
                v == sample_position(px@[1], step as int, patch_size as int, y as int),
                -0x1000_0000_0000_0000_0000_0000_0000 <= v <= 0x1000_0000_0000_0000_0000_0000_0000,
                row@.len() == x,
                forall|k: int|
                    0 <= k < x ==> #[trigger] row@[k] == corners_at(
                        image,
                        sample_position(px@[0], step as int, patch_size as int, k),
                        v as int,
                        step as int,
                    ),
            decreases patch_size - x,
        {
            proof {
                lemma_offset_bound(x as int, step as int);
            }
            let u: i128 = start_u - half * step + x as i128 * step;
            row.push(corners(image, u, v, step));
            x += 1;
        }
        level.push(row);
        y += 1;
    }
    level
}

/// An offset of samples is far from the limits of its type.
proof fn lemma_offset_bound(k: int, step: int)
    requires
        0 <= k <= usize::MAX,
        0 < step <= 0x8000_0000,
    ensures
        0 <= k * step <= 0x8000_0000_0000_0000_8000_0000,
{
    assert(0 <= k * step <= 0x1_0000_0000_0000_0000 * 0x8000_0000) by (nonlinear_arith)
        requires
            0 <= k <= 0x1_0000_0000_0000_0000,
            0 < step <= 0x8000_0000,
    ;
}

} // verus!
