//! The file format of the map: little-endian and without padding.
//!
//! A file starts with eight magic bytes, the version (four bytes) and the number
//! of frames (eight). A frame has a header of 80 bytes (number, time, position,
//! orientation, number of landmarks) and 548 bytes for each landmark (position,
//! pixel, descriptor, score). What follows the last frame is not looked at.

use vstd::prelude::*;

use crate::double::{Double, Single};
use crate::vision_map::map::{VisionKeyFrame, VisionMap, VisionMapPoint};

verus! {

/// The version of the format.
pub const VERSION: u32 = 2;

/// The bytes before the first frame.
pub const HEADER_SIZE: usize = 20;

/// The bytes of a frame without its landmarks.
pub const FRAME_SIZE: usize = 80;

/// The bytes of a landmark.
pub const POINT_SIZE: usize = 548;

/// Why bytes are not a map.
#[derive(Clone, Copy, Debug, PartialEq, Eq, Structural)]
pub enum MapError {
    /// The bytes end before the map does.
    Truncated,
    /// The bytes do not start like a map.
    BadMagic,
    /// The map has another version.
    BadVersion,
}

/// The first bytes of a map: `FFVMAP01`.
pub open spec fn magic() -> Seq<u8> {
    seq![0x46u8, 0x46u8, 0x56u8, 0x4Du8, 0x41u8, 0x50u8, 0x30u8, 0x31u8]
}

/// The number in `n` bytes from `at` on, the lowest byte first.
pub open spec fn le_at(bytes: Seq<u8>, at: int, n: int) -> int
    decreases n,
{
    if n <= 0 {
        0
    } else {
        bytes[at] + 256 * le_at(bytes, at + 1, n - 1)
    }
}

/// How many numbers `n` bytes can hold.
pub open spec fn le_bound(n: int) -> int
    decreases n,
{
    if n <= 0 {
        1
    } else {
        256 * le_bound(n - 1)
    }
}

/// Whether a landmark is written at `at`.
pub open spec fn point_at(p: VisionMapPoint, bytes: Seq<u8>, at: int) -> bool {
    &&& forall|i: int| 0 <= i < 3 ==> (#[trigger] p.position@[i]).bits == le_at(bytes, at + 8 * i, 8)
    &&& forall|i: int| 0 <= i < 2 ==> (#[trigger] p.uv@[i]).bits == le_at(bytes, at + 24 + 4 * i, 4)
    &&& forall|i: int|
        0 <= i < 128 ==> (#[trigger] p.descriptor@[i]).bits == le_at(bytes, at + 32 + 4 * i, 4)
    &&& p.score.bits == le_at(bytes, at + 544, 4)
}

/// The number of landmarks of a frame at `at`.
pub open spec fn point_count(bytes: Seq<u8>, at: int) -> int {
    le_at(bytes, at + 72, 8)
}

/// Where landmark `j` of a frame at `at` starts.
pub open spec fn point_start(at: int, j: int) -> int {
    at + FRAME_SIZE + j * POINT_SIZE
}

/// Where a frame at `at` ends.
pub open spec fn frame_end(bytes: Seq<u8>, at: int) -> int {
    point_start(at, point_count(bytes, at))
}

/// Whether the header of a frame is written at `at`.
pub open spec fn frame_header_at(f: VisionKeyFrame, bytes: Seq<u8>, at: int) -> bool {
    &&& f.id == le_at(bytes, at, 8)
    &&& f.timestamp.bits == le_at(bytes, at + 8, 8)
    &&& forall|i: int|
        0 <= i < 3 ==> (#[trigger] f.position@[i]).bits == le_at(bytes, at + 16 + 8 * i, 8)
    &&& forall|i: int|
        0 <= i < 4 ==> (#[trigger] f.quat_xyzw@[i]).bits == le_at(bytes, at + 40 + 8 * i, 8)
}

/// Whether a frame is written at `at`.
pub open spec fn frame_at(f: VisionKeyFrame, bytes: Seq<u8>, at: int) -> bool {
    &&& frame_header_at(f, bytes, at)
    &&& f.points@.len() == point_count(bytes, at)
    &&& forall|j: int|
        0 <= j < f.points@.len() ==> point_at(#[trigger] f.points@[j], bytes, point_start(at, j))
}

/// Where frame `k` starts.
pub open spec fn frame_start(bytes: Seq<u8>, k: int) -> int
    decreases k,
{
    if k <= 0 {
        HEADER_SIZE as int
    } else {
        frame_end(bytes, frame_start(bytes, k - 1))
    }
}

/// The number of frames.
pub open spec fn frame_count(bytes: Seq<u8>) -> int {
    le_at(bytes, 12, 8)
}

/// Whether a map starts the bytes.
pub open spec fn has_magic(bytes: Seq<u8>) -> bool {
    bytes.len() >= 8 && bytes.take(8) == magic()
}

/// Whether the magic bytes are followed by the version.
pub open spec fn has_version(bytes: Seq<u8>) -> bool {
    bytes.len() >= 12 && le_at(bytes, 8, 4) == VERSION
}

/// Whether header and landmarks of a frame at `at` lie inside the bytes.
pub open spec fn frame_fits(bytes: Seq<u8>, at: int) -> bool {
    at + FRAME_SIZE <= bytes.len() && frame_end(bytes, at) <= bytes.len()
}

/// Whether all frames lie inside the bytes.
pub open spec fn complete(bytes: Seq<u8>) -> bool {
    &&& bytes.len() >= HEADER_SIZE
    &&& forall|k: int|
        0 <= k < frame_count(bytes) ==> frame_fits(bytes, #[trigger] frame_start(bytes, k))
}

/// Whether the frames of a map are written in the bytes.
pub open spec fn frames_at(m: VisionMap, bytes: Seq<u8>) -> bool {
    &&& m.frames@.len() == frame_count(bytes)
    &&& forall|k: int|
        0 <= k < m.frames@.len() ==> frame_at(#[trigger] m.frames@[k], bytes, frame_start(bytes, k))
}

/// Whether the bytes start with a map.
pub open spec fn map_at(m: VisionMap, bytes: Seq<u8>) -> bool {
    has_magic(bytes) && has_version(bytes) && complete(bytes) && frames_at(m, bytes)
}

/// What `n` bytes hold is below the bound.
proof fn lemma_le_range(bytes: Seq<u8>, at: int, n: int)
    requires
        0 <= n,
    ensures
        0 <= le_at(bytes, at, n) < le_bound(n),
    decreases n,
{
    if n > 0 {
        lemma_le_range(bytes, at + 1, n - 1);
    }
}

/// A number depends on its bytes alone.
proof fn lemma_le_same(a: Seq<u8>, b: Seq<u8>, at: int, n: int)
    requires
        forall|i: int| at <= i < at + n ==> #[trigger] a[i] == b[i],
    ensures
        le_at(a, at, n) == le_at(b, at, n),
    decreases n,
{
    if n > 0 {
        lemma_le_same(a, b, at + 1, n - 1);
    }
}

/// Whether `b` starts with the first `n` bytes of `a`.
pub open spec fn agrees(a: Seq<u8>, b: Seq<u8>, n: int) -> bool {
    &&& n <= a.len()
    &&& n <= b.len()
    &&& forall|i: int| 0 <= i < n ==> #[trigger] a[i] == b[i]
}

/// A landmark depends on its bytes alone.
proof fn lemma_point_same(p: VisionMapPoint, a: Seq<u8>, b: Seq<u8>, at: int)
    requires
        0 <= at,
        agrees(a, b, at + POINT_SIZE),
        point_at(p, a, at),
    ensures
        point_at(p, b, at),
{
    assert forall|i: int| 0 <= i < 3 implies (#[trigger] p.position@[i]).bits == le_at(
        b,
        at + 8 * i,
        8,
    ) by {
        lemma_le_same(a, b, at + 8 * i, 8);
    }
    assert forall|i: int| 0 <= i < 2 implies (#[trigger] p.uv@[i]).bits == le_at(
        b,
        at + 24 + 4 * i,
        4,
    ) by {
        lemma_le_same(a, b, at + 24 + 4 * i, 4);
    }
    assert forall|i: int| 0 <= i < 128 implies (#[trigger] p.descriptor@[i]).bits == le_at(
        b,
        at + 32 + 4 * i,
        4,
    ) by {
        lemma_le_same(a, b, at + 32 + 4 * i, 4);
    }
    lemma_le_same(a, b, at + 544, 4);
}

/// A frame header depends on its bytes alone.
proof fn lemma_header_same(f: VisionKeyFrame, a: Seq<u8>, b: Seq<u8>, at: int)
    requires
        0 <= at,
        agrees(a, b, at + 72),
        frame_header_at(f, a, at),
    ensures
        frame_header_at(f, b, at),
{
    lemma_le_same(a, b, at, 8);
    lemma_le_same(a, b, at + 8, 8);
    assert forall|i: int| 0 <= i < 3 implies (#[trigger] f.position@[i]).bits == le_at(
        b,
        at + 16 + 8 * i,
        8,
    ) by {
        lemma_le_same(a, b, at + 16 + 8 * i, 8);
    }
    assert forall|i: int| 0 <= i < 4 implies (#[trigger] f.quat_xyzw@[i]).bits == le_at(
        b,
        at + 40 + 8 * i,
        8,
    ) by {
        lemma_le_same(a, b, at + 40 + 8 * i, 8);
    }
}

/// Landmarks lie one after another.
proof fn lemma_point_starts(at: int, i: int, j: int)
    requires
        0 <= i <= j,
    ensures
        point_start(at, i) <= point_start(at, j),
        at + FRAME_SIZE <= point_start(at, i),
        i < j ==> point_start(at, i) + POINT_SIZE <= point_start(at, j),
        point_start(at, i) + POINT_SIZE == point_start(at, i + 1),
{
    assert(i * POINT_SIZE <= j * POINT_SIZE) by (nonlinear_arith)
        requires
            i <= j,
    ;
    assert(0 <= i * POINT_SIZE) by (nonlinear_arith)
        requires
            0 <= i,
    ;
    assert((i + 1) * POINT_SIZE == i * POINT_SIZE + POINT_SIZE) by (nonlinear_arith);
    if i < j {
        assert((i + 1) * POINT_SIZE <= j * POINT_SIZE) by (nonlinear_arith)
            requires
                i + 1 <= j,
        ;
    }
}

/// A frame depends on its bytes alone.
proof fn lemma_frame_same(f: VisionKeyFrame, a: Seq<u8>, b: Seq<u8>, at: int)
    requires
        0 <= at,
        frame_at(f, a, at),
        agrees(a, b, point_start(at, f.points@.len() as int)),
    ensures
        frame_at(f, b, at),
        point_count(a, at) == point_count(b, at),
{
    lemma_point_starts(at, 0, f.points@.len() as int);
    lemma_header_same(f, a, b, at);
    lemma_le_same(a, b, at + 72, 8);
    assert forall|j: int| 0 <= j < f.points@.len() implies point_at(
        #[trigger] f.points@[j],
        b,
        point_start(at, j),
    ) by {
        lemma_point_starts(at, j, f.points@.len() as int);
        lemma_point_same(f.points@[j], a, b, point_start(at, j));
    }
}

/// A number from four bytes.
fn read_u32(bytes: &Vec<u8>, at: usize) -> (v: u32)
    requires
        at + 4 <= bytes.len(),
    ensures
        v == le_at(bytes@, at as int, 4),
{
    proof {
        reveal_with_fuel(le_at, 5);
    }
    let low: u32 = bytes[at] as u32 + 256 * (bytes[at + 1] as u32);
    let high: u32 = bytes[at + 2] as u32 + 256 * (bytes[at + 3] as u32);
    low + 65536 * high
}

/// A number from eight bytes.
fn read_u64(bytes: &Vec<u8>, at: usize) -> (v: u64)
    requires
        at + 8 <= bytes.len(),
    ensures
        v == le_at(bytes@, at as int, 8),
{
    let low: u64 = read_u32(bytes, at) as u64;
    let high: u64 = read_u32(bytes, at + 4) as u64;
    assert(low + 0x1_0000_0000 * high == le_at(bytes@, at as int, 8)) by {
        reveal_with_fuel(le_at, 9);
    }
    low + 0x1_0000_0000 * high
}

/// Appends a number in `n` bytes.
fn push_le(bytes: &mut Vec<u8>, v: u64, n: usize)
    requires
        v < le_bound(n as int),
    ensures
        final(bytes)@.len() == old(bytes)@.len() + n,
        agrees(old(bytes)@, final(bytes)@, old(bytes)@.len() as int),
        le_at(final(bytes)@, old(bytes)@.len() as int, n as int) == v,
    decreases n,
{
    if n > 0 {
        let ghost first = bytes@;
        bytes.push((v % 256) as u8);
        let ghost mid = bytes@;
        push_le(bytes, v / 256, n - 1);
        proof {
            assert(bytes@[first.len() as int] == mid[first.len() as int]);
            assert forall|i: int| 0 <= i < first.len() implies #[trigger] first[i] == bytes@[i] by {
                assert(first[i] == mid[i]);
            }
        }
    }
}

/// Appends a number in eight bytes.
fn push_u64(bytes: &mut Vec<u8>, v: u64)
    ensures
        final(bytes)@.len() == old(bytes)@.len() + 8,
        agrees(old(bytes)@, final(bytes)@, old(bytes)@.len() as int),
        le_at(final(bytes)@, old(bytes)@.len() as int, 8) == v,
{
    proof {
        reveal_with_fuel(le_bound, 9);
    }
    push_le(bytes, v, 8);
}

/// Appends a number in four bytes.
fn push_u32(bytes: &mut Vec<u8>, v: u32)
    ensures
        final(bytes)@.len() == old(bytes)@.len() + 4,
        agrees(old(bytes)@, final(bytes)@, old(bytes)@.len() as int),
        le_at(final(bytes)@, old(bytes)@.len() as int, 4) == v,
{
    proof {
        reveal_with_fuel(le_bound, 5);
    }
    push_le(bytes, v as u64, 4);
}

/// Appends double-precision numbers.
fn push_doubles(bytes: &mut Vec<u8>, values: &[Double])
    ensures
        final(bytes)@.len() == old(bytes)@.len() + 8 * values@.len(),
        agrees(old(bytes)@, final(bytes)@, old(bytes)@.len() as int),
        forall|i: int|
            0 <= i < values@.len() ==> (#[trigger] values@[i]).bits == le_at(
                final(bytes)@,
                old(bytes)@.len() + 8 * i,
                8,
            ),
{
    let ghost first = bytes@;
    let mut k: usize = 0;
    while k < values.len()
        invariant
            k <= values@.len(),
            bytes@.len() == first.len() + 8 * k,
            agrees(first, bytes@, first.len() as int),
            forall|i: int|
                0 <= i < k ==> (#[trigger] values@[i]).bits == le_at(
                    bytes@,
                    first.len() + 8 * i,
                    8,
                ),
        decreases values@.len() - k,
    {
        let ghost before = bytes@;
        push_u64(bytes, values[k].bits);
        proof {
            assert forall|i: int| 0 <= i < k + 1 implies (#[trigger] values@[i]).bits == le_at(
                bytes@,
                first.len() + 8 * i,
                8,
            ) by {
                if i < k {
                    lemma_le_same(before, bytes@, first.len() + 8 * i, 8);
                }
            }
            assert forall|i: int| 0 <= i < first.len() implies #[trigger] first[i] == bytes@[i] by {
                assert(first[i] == before[i]);
            }
        }
        k += 1;
    }
}

/// Appends single-precision numbers.
fn push_singles(bytes: &mut Vec<u8>, values: &[Single])
    ensures
        final(bytes)@.len() == old(bytes)@.len() + 4 * values@.len(),
        agrees(old(bytes)@, final(bytes)@, old(bytes)@.len() as int),
        forall|i: int|
            0 <= i < values@.len() ==> (#[trigger] values@[i]).bits == le_at(
                final(bytes)@,
                old(bytes)@.len() + 4 * i,
                4,
            ),
{
    let ghost first = bytes@;
    let mut k: usize = 0;
    while k < values.len()
        invariant
            k <= values@.len(),
            bytes@.len() == first.len() + 4 * k,
            agrees(first, bytes@, first.len() as int),
            forall|i: int|
                0 <= i < k ==> (#[trigger] values@[i]).bits == le_at(
                    bytes@,
                    first.len() + 4 * i,
                    4,
                ),
        decreases values@.len() - k,
    {
        let ghost before = bytes@;
        push_u32(bytes, values[k].bits);
        proof {
            assert forall|i: int| 0 <= i < k + 1 implies (#[trigger] values@[i]).bits == le_at(
                bytes@,
                first.len() + 4 * i,
                4,
            ) by {
                if i < k {
                    lemma_le_same(before, bytes@, first.len() + 4 * i, 4);
                }
            }
            assert forall|i: int| 0 <= i < first.len() implies #[trigger] first[i] == bytes@[i] by {
                assert(first[i] == before[i]);
            }
        }
        k += 1;
    }
}

/// Appends a landmark.
fn push_point(bytes: &mut Vec<u8>, p: &VisionMapPoint)
    ensures
        final(bytes)@.len() == old(bytes)@.len() + POINT_SIZE,
        agrees(old(bytes)@, final(bytes)@, old(bytes)@.len() as int),
        point_at(*p, final(bytes)@, old(bytes)@.len() as int),
{
    let ghost first = bytes@;
    let ghost at = bytes@.len() as int;
    push_doubles(bytes, &p.position);
    let ghost b1 = bytes@;
    push_singles(bytes, &p.uv);
    let ghost b2 = bytes@;
    push_singles(bytes, &p.descriptor);
    let ghost b3 = bytes@;
    push_u32(bytes, p.score.bits);
    proof {
        assert(agrees(b2, bytes@, b2.len() as int)) by {
            assert forall|i: int| 0 <= i < b2.len() implies #[trigger] b2[i] == bytes@[i] by {
                assert(b2[i] == b3[i]);
            }
        }
        assert(agrees(b1, bytes@, b1.len() as int)) by {
            assert forall|i: int| 0 <= i < b1.len() implies #[trigger] b1[i] == bytes@[i] by {
                assert(b1[i] == b2[i]);
            }
        }
        assert(agrees(first, bytes@, at)) by {
            assert forall|i: int| 0 <= i < at implies #[trigger] first[i] == bytes@[i] by {
                assert(first[i] == b1[i]);
            }
        }
        assert forall|i: int| 0 <= i < 3 implies (#[trigger] p.position@[i]).bits == le_at(
            bytes@,
            at + 8 * i,
            8,
        ) by {
            lemma_le_same(b1, bytes@, at + 8 * i, 8);
        }
        assert forall|i: int| 0 <= i < 2 implies (#[trigger] p.uv@[i]).bits == le_at(
            bytes@,
            at + 24 + 4 * i,
            4,
        ) by {
            lemma_le_same(b2, bytes@, at + 24 + 4 * i, 4);
        }
        assert forall|i: int| 0 <= i < 128 implies (#[trigger] p.descriptor@[i]).bits == le_at(
            bytes@,
            at + 32 + 4 * i,
            4,
        ) by {
            lemma_le_same(b3, bytes@, at + 32 + 4 * i, 4);
        }
    }
}

/// Appends the header of a frame, without the number of landmarks.
fn push_frame_header(bytes: &mut Vec<u8>, f: &VisionKeyFrame)
    ensures
        final(bytes)@.len() == old(bytes)@.len() + 72,
        agrees(old(bytes)@, final(bytes)@, old(bytes)@.len() as int),
        frame_header_at(*f, final(bytes)@, old(bytes)@.len() as int),
{
    let ghost first = bytes@;
    let ghost at = bytes@.len() as int;
    push_u64(bytes, f.id);
    let ghost b1 = bytes@;
    push_u64(bytes, f.timestamp.bits);
    let ghost b2 = bytes@;
    push_doubles(bytes, &f.position);
    let ghost b3 = bytes@;
    push_doubles(bytes, &f.quat_xyzw);
    proof {
        assert(agrees(b2, bytes@, b2.len() as int)) by {
            assert forall|i: int| 0 <= i < b2.len() implies #[trigger] b2[i] == bytes@[i] by {
                assert(b2[i] == b3[i]);
            }
        }
        assert(agrees(b1, bytes@, b1.len() as int)) by {
            assert forall|i: int| 0 <= i < b1.len() implies #[trigger] b1[i] == bytes@[i] by {
                assert(b1[i] == b2[i]);
            }
        }
        assert(agrees(first, bytes@, at)) by {
            assert forall|i: int| 0 <= i < at implies #[trigger] first[i] == bytes@[i] by {
                assert(first[i] == b1[i]);
            }
        }
        lemma_le_same(b1, bytes@, at, 8);
        lemma_le_same(b2, bytes@, at + 8, 8);
        assert forall|i: int| 0 <= i < 3 implies (#[trigger] f.position@[i]).bits == le_at(
            bytes@,
            at + 16 + 8 * i,
            8,
        ) by {
            lemma_le_same(b3, bytes@, at + 16 + 8 * i, 8);
        }
    }
}

/// Appends a frame.
fn push_frame(bytes: &mut Vec<u8>, f: &VisionKeyFrame)
    ensures
        agrees(old(bytes)@, final(bytes)@, old(bytes)@.len() as int),
        frame_at(*f, final(bytes)@, old(bytes)@.len() as int),
        final(bytes)@.len() == frame_end(final(bytes)@, old(bytes)@.len() as int),
{
    let ghost first = bytes@;
    let ghost at = bytes@.len() as int;
    push_frame_header(bytes, f);
    let ghost head = bytes@;
    push_u64(bytes, f.points.len() as u64);
    proof {
        lemma_header_same(*f, head, bytes@, at);
        assert forall|i: int| 0 <= i < at implies #[trigger] first[i] == bytes@[i] by {
            assert(first[i] == head[i]);
        }
        lemma_point_starts(at, 0, 0);
    }
    let mut j: usize = 0;
    while j < f.points.len()
        invariant
            j <= f.points@.len(),
            0 <= at,
            at == first.len(),
            bytes@.len() == point_start(at, j as int),
            agrees(first, bytes@, at),
            frame_header_at(*f, bytes@, at),
            f.points@.len() == point_count(bytes@, at),
            forall|k: int|
                0 <= k < j ==> point_at(#[trigger] f.points@[k], bytes@, point_start(at, k)),
        decreases f.points@.len() - j,
    {
        let ghost before = bytes@;
        push_point(bytes, &f.points[j]);
        proof {
            lemma_point_starts(at, 0, j as int);
            lemma_point_starts(at, j as int, j + 1);
            lemma_header_same(*f, before, bytes@, at);
            lemma_le_same(before, bytes@, at + 72, 8);
            assert forall|k: int| 0 <= k < j + 1 implies point_at(
                #[trigger] f.points@[k],
                bytes@,
                point_start(at, k),
            ) by {
                if k < j {
                    lemma_point_starts(at, k, j as int);
                    lemma_point_same(f.points@[k], before, bytes@, point_start(at, k));
                }
            }
            assert forall|i: int| 0 <= i < at implies #[trigger] first[i] == bytes@[i] by {
                assert(first[i] == before[i]);
            }
        }
        j += 1;
    }
}

/// Frames start where the header says, whatever follows them.
proof fn lemma_starts_same(a: Seq<u8>, b: Seq<u8>, k: int)
    requires
        0 <= k,
        forall|i: int| 0 <= i < k ==> frame_fits(a, #[trigger] frame_start(a, i)),
        agrees(a, b, a.len() as int),
        a.len() >= HEADER_SIZE,
    ensures
        frame_start(a, k) == frame_start(b, k),
        HEADER_SIZE <= frame_start(a, k) <= a.len(),
        forall|i: int| 0 <= i < k ==> frame_start(a, i) == #[trigger] frame_start(b, i),
    decreases k,
{
    if k > 0 {
        lemma_starts_same(a, b, k - 1);
        let at = frame_start(a, k - 1);
        assert(frame_fits(a, at));
        lemma_le_same(a, b, at + 72, 8);
        lemma_le_range(a, at + 72, 8);
        lemma_point_starts(at, 0, point_count(a, at));
    }
}

/// The bytes of a map.
pub fn save_map(map: &VisionMap) -> (bytes: Vec<u8>)
    ensures
        map_at(*map, bytes@),
        bytes@.len() == frame_start(bytes@, frame_count(bytes@)),
{
    let mut bytes: Vec<u8> = Vec::new();
    let head: [u8; 8] = [0x46, 0x46, 0x56, 0x4D, 0x41, 0x50, 0x30, 0x31];
    let mut i: usize = 0;
    while i < 8
        invariant
            i <= 8,
            head@ == magic(),
            bytes@ == magic().take(i as int),
        decreases 8 - i,
    {
        bytes.push(head[i]);
        assert(bytes@ =~= magic().take(i + 1));
        i += 1;
    }
    assert(bytes@ =~= magic());
    push_u32(&mut bytes, VERSION);
    let ghost versioned = bytes@;
    push_u64(&mut bytes, map.frames.len() as u64);
    proof {
        assert(bytes@.take(8) =~= magic());
        lemma_le_same(versioned, bytes@, 8, 4);
    }
    let mut k: usize = 0;
    while k < map.frames.len()
        invariant
            k <= map.frames@.len(),
            bytes@.len() >= HEADER_SIZE,
            has_magic(bytes@),
            has_version(bytes@),
            frame_count(bytes@) == map.frames@.len(),
            bytes@.len() == frame_start(bytes@, k as int),
            forall|q: int| 0 <= q < k ==> frame_fits(bytes@, #[trigger] frame_start(bytes@, q)),
            forall|q: int|
                0 <= q < k ==> frame_at(
                    #[trigger] map.frames@[q],
                    bytes@,
                    frame_start(bytes@, q),
                ),
        decreases map.frames@.len() - k,
    {
        let ghost before = bytes@;
        push_frame(&mut bytes, &map.frames[k]);
        proof {
            let after = bytes@;
            lemma_starts_same(before, after, k as int);
            assert(after.take(8) =~= before.take(8));
            lemma_le_same(before, after, 8, 4);
            lemma_le_same(before, after, 12, 8);
            let at = before.len() as int;
            lemma_le_range(after, at + 72, 8);
            lemma_point_starts(at, 0, point_count(after, at));
            assert forall|q: int| 0 <= q < k + 1 implies frame_fits(
                after,
                #[trigger] frame_start(after, q),
            ) by {
                if q < k {
                    let start = frame_start(before, q);
                    assert(frame_fits(before, start));
                    lemma_starts_same(before, after, q);
                    lemma_le_same(before, after, start + 72, 8);
                }
            }
            assert forall|q: int| 0 <= q < k + 1 implies frame_at(
                #[trigger] map.frames@[q],
                after,
                frame_start(after, q),
            ) by {
                if q < k {
                    let start = frame_start(before, q);
                    assert(frame_fits(before, start));
                    lemma_starts_same(before, after, q);
                    lemma_frame_same(map.frames@[q], before, after, start);
                }
            }
        }
        k += 1;
    }
    bytes
}

/// Reads a landmark.
fn read_point(bytes: &Vec<u8>, at: usize) -> (p: VisionMapPoint)
    requires
        at + POINT_SIZE <= bytes.len(),
    ensures
        point_at(p, bytes@, at as int),
{
    let position = [
        Double { bits: read_u64(bytes, at) },
        Double { bits: read_u64(bytes, at + 8) },
        Double { bits: read_u64(bytes, at + 16) },
    ];
    let uv = [Single { bits: read_u32(bytes, at + 24) }, Single { bits: read_u32(bytes, at + 28) }];
    let mut descriptor: [Single; 128] = [Single { bits: 0 };128];
    let mut i: usize = 0;
    while i < 128
        invariant
            i <= 128,
            at + POINT_SIZE <= bytes.len(),
            forall|k: int|
                0 <= k < i ==> (#[trigger] descriptor@[k]).bits == le_at(bytes@, at + 32 + 4 * k, 4),
        decreases 128 - i,
    {
        descriptor[i] = Single { bits: read_u32(bytes, at + 32 + 4 * i) };
        i += 1;
    }
    let score = Single { bits: read_u32(bytes, at + 544) };
    VisionMapPoint { position, uv, descriptor, score }
}

/// Reads a frame, if it lies inside the bytes.
fn read_frame(bytes: &Vec<u8>, at: usize) -> (r: Option<(VisionKeyFrame, usize)>)
    requires
        at <= bytes@.len(),
    ensures
        r is Some <==> frame_fits(bytes@, at as int),
        r matches Some(x) ==> frame_at(x.0, bytes@, at as int) && x.1 == frame_end(
            bytes@,
            at as int,
        ),
{
    if bytes.len() - at < FRAME_SIZE {
        return None;
    }
    let id: u64 = read_u64(bytes, at);
    let timestamp = Double { bits: read_u64(bytes, at + 8) };
    let position = [
        Double { bits: read_u64(bytes, at + 16) },
        Double { bits: read_u64(bytes, at + 24) },
        Double { bits: read_u64(bytes, at + 32) },
    ];
    let quat_xyzw = [
        Double { bits: read_u64(bytes, at + 40) },
        Double { bits: read_u64(bytes, at + 48) },
        Double { bits: read_u64(bytes, at + 56) },
        Double { bits: read_u64(bytes, at + 64) },
    ];
    let n: u64 = read_u64(bytes, at + 72);
    let mut points: Vec<VisionMapPoint> = Vec::new();
    let mut next: usize = at + FRAME_SIZE;
    let mut j: u64 = 0;
    proof {
        lemma_point_starts(at as int, 0, 0);
    }
    while j < n
        invariant
            j <= n,
            n == point_count(bytes@, at as int),
            points@.len() == j,
            next == point_start(at as int, j as int),
            next <= bytes@.len(),
            forall|k: int|
                0 <= k < j ==> point_at(
                    #[trigger] points@[k],
                    bytes@,
                    point_start(at as int, k),
                ),
        decreases n - j,
    {
        proof {
            lemma_point_starts(at as int, j as int, n as int);
        }
        if bytes.len() - next < POINT_SIZE {
            return None;
        }
        points.push(read_point(bytes, next));
        next += POINT_SIZE;
        j += 1;
    }
    Some((VisionKeyFrame { id, timestamp, position, quat_xyzw, points }, next))
}

/// Reads a map. The magic bytes are looked at first, then the version.
pub fn load_map(bytes: &Vec<u8>) -> (res: Result<VisionMap, MapError>)
    ensures
        match res {
            Ok(m) => map_at(m, bytes@),
            Err(MapError::BadMagic) => bytes@.len() >= 8 && !has_magic(bytes@),
            Err(MapError::BadVersion) => has_magic(bytes@) && bytes@.len() >= 12 && !has_version(
                bytes@,
            ),
            Err(MapError::Truncated) => bytes@.len() < 8 || (has_magic(bytes@) && (bytes@.len() < 12
                || (has_version(bytes@) && !complete(bytes@)))),
        },
{
    if bytes.len() < 8 {
        return Err(MapError::Truncated);
    }
    let head: [u8; 8] = [0x46, 0x46, 0x56, 0x4D, 0x41, 0x50, 0x30, 0x31];
    assert(head@ =~= magic());
    let mut i: usize = 0;
    while i < 8
        invariant
            i <= 8,
            bytes@.len() >= 8,
            head@ == magic(),
            forall|k: int| 0 <= k < i ==> #[trigger] bytes@[k] == magic()[k],
        decreases 8 - i,
    {
        if bytes[i] != head[i] {
            assert(bytes@.take(8)[i as int] != magic()[i as int]);
            return Err(MapError::BadMagic);
        }
        i += 1;
    }
    assert(bytes@.take(8) =~= magic());
    if bytes.len() < 12 {
        return Err(MapError::Truncated);
    }
    if read_u32(bytes, 8) != VERSION {
        return Err(MapError::BadVersion);
    }
    if bytes.len() < HEADER_SIZE {
        return Err(MapError::Truncated);
    }
    let count: u64 = read_u64(bytes, 12);
    let mut frames: Vec<VisionKeyFrame> = Vec::new();
    let mut next: usize = HEADER_SIZE;
    let mut k: u64 = 0;
    while k < count
        invariant
            k <= count,
            bytes@.len() >= HEADER_SIZE,
            has_magic(bytes@),
            has_version(bytes@),
            count == frame_count(bytes@),
            frames@.len() == k,
            next == frame_start(bytes@, k as int),
            next <= bytes@.len(),
            forall|q: int| 0 <= q < k ==> frame_fits(bytes@, #[trigger] frame_start(bytes@, q)),
            forall|q: int|
                0 <= q < k ==> frame_at(#[trigger] frames@[q], bytes@, frame_start(bytes@, q)),
        decreases count - k,
    {
        match read_frame(bytes, next) {
            None => {
                assert(!frame_fits(bytes@, frame_start(bytes@, k as int)));
                return Err(MapError::Truncated);
            },
            Some((frame, end)) => {
                frames.push(frame);
                next = end;
            },
        }
        k += 1;
    }
    Ok(VisionMap { frames })
}

/// Whether two landmarks are the same.
pub open spec fn same_point(a: VisionMapPoint, b: VisionMapPoint) -> bool {
    &&& a.position@ == b.position@
    &&& a.uv@ == b.uv@
    &&& a.descriptor@ == b.descriptor@
    &&& a.score == b.score
}

/// Whether two frames are the same.
pub open spec fn same_frame(a: VisionKeyFrame, b: VisionKeyFrame) -> bool {
    &&& a.id == b.id
    &&& a.timestamp == b.timestamp
    &&& a.position@ == b.position@
    &&& a.quat_xyzw@ == b.quat_xyzw@
    &&& a.points@.len() == b.points@.len()
    &&& forall|j: int|
        0 <= j < a.points@.len() ==> same_point(#[trigger] a.points@[j], b.points@[j])
}

/// Whether two maps are the same.
pub open spec fn same_map(a: VisionMap, b: VisionMap) -> bool {
    &&& a.frames@.len() == b.frames@.len()
    &&& forall|k: int|
        0 <= k < a.frames@.len() ==> same_frame(#[trigger] a.frames@[k], b.frames@[k])
}

/// Bytes hold one map at most.
pub proof fn law_bytes_determine_map(a: VisionMap, b: VisionMap, bytes: Seq<u8>)
    requires
        map_at(a, bytes),
        map_at(b, bytes),
    ensures
        same_map(a, b),
{
    assert forall|k: int| 0 <= k < a.frames@.len() implies same_frame(
        #[trigger] a.frames@[k],
        b.frames@[k],
    ) by {
        let f = a.frames@[k];
        let g = b.frames@[k];
        let at = frame_start(bytes, k);
        assert(frame_at(f, bytes, at));
        assert(frame_at(g, bytes, at));
        assert forall|i: int| 0 <= i < 3 implies f.position@[i] == g.position@[i] by {
            assert(f.position@[i].bits == g.position@[i].bits);
        }
        assert(f.position@ =~= g.position@);
        assert forall|i: int| 0 <= i < 4 implies f.quat_xyzw@[i] == g.quat_xyzw@[i] by {
            assert(f.quat_xyzw@[i].bits == g.quat_xyzw@[i].bits);
        }
        assert(f.quat_xyzw@ =~= g.quat_xyzw@);
        assert forall|j: int| 0 <= j < f.points@.len() implies same_point(
            #[trigger] f.points@[j],
            g.points@[j],
        ) by {
            let p = f.points@[j];
            let q = g.points@[j];
            assert(point_at(p, bytes, point_start(at, j)));
            assert(point_at(q, bytes, point_start(at, j)));
            assert forall|i: int| 0 <= i < 3 implies p.position@[i] == q.position@[i] by {
                assert(p.position@[i].bits == q.position@[i].bits);
            }
            assert forall|i: int| 0 <= i < 2 implies p.uv@[i] == q.uv@[i] by {
                assert(p.uv@[i].bits == q.uv@[i].bits);
            }
            assert forall|i: int| 0 <= i < 128 implies p.descriptor@[i] == q.descriptor@[i] by {
                assert(p.descriptor@[i].bits == q.descriptor@[i].bits);
            }
            assert(p.position@ =~= q.position@);
            assert(p.uv@ =~= q.uv@);
            assert(p.descriptor@ =~= q.descriptor@);
        }
    }
}

/// Reading what was written gives the map back, whatever follows it: where a map
/// is written, no error comes, and the map that is read is the same.
pub proof fn law_load_gives_back_save(
    map: VisionMap,
    saved: Seq<u8>,
    bytes: Seq<u8>,
    read: VisionMap,
)
    requires
        map_at(map, saved),
        agrees(saved, bytes, saved.len() as int),
        map_at(read, bytes),
    ensures
        same_map(map, read),
{
    lemma_map_same(map, saved, bytes);
    law_bytes_determine_map(map, read, bytes);
}

/// A written map stays one, whatever follows it.
pub proof fn law_trailing_bytes_do_not_matter(map: VisionMap, saved: Seq<u8>, bytes: Seq<u8>)
    requires
        map_at(map, saved),
        agrees(saved, bytes, saved.len() as int),
    ensures
        map_at(map, bytes),
{
    lemma_map_same(map, saved, bytes);
}

/// A map depends on its bytes alone.
proof fn lemma_map_same(map: VisionMap, a: Seq<u8>, b: Seq<u8>)
    requires
        map_at(map, a),
        agrees(a, b, a.len() as int),
    ensures
        map_at(map, b),
{
    assert(b.take(8) =~= a.take(8));
    lemma_le_same(a, b, 8, 4);
    lemma_le_same(a, b, 12, 8);
    let n = frame_count(a);
    lemma_le_range(a, 12, 8);
    lemma_starts_same(a, b, n);
    assert forall|k: int| 0 <= k < n implies frame_fits(b, #[trigger] frame_start(b, k)) by {
        let at = frame_start(a, k);
        assert(frame_fits(a, at));
        lemma_starts_same(a, b, k);
        lemma_le_same(a, b, at + 72, 8);
    }
    assert forall|k: int| 0 <= k < map.frames@.len() implies frame_at(
        #[trigger] map.frames@[k],
        b,
        frame_start(b, k),
    ) by {
        let at = frame_start(a, k);
        assert(frame_fits(a, at));
        lemma_starts_same(a, b, k);
        lemma_frame_same(map.frames@[k], a, b, at);
    }
}

} // verus!
