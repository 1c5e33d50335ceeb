//! Key frames and the queries for those near a position.

use vstd::prelude::*;

use crate::arith::{apply_gauge, apply_two, binary, gauged, gauges, of_two};
use crate::double::{Double, Single, INFINITY_BITS, MINUS_ONE_BITS};
use crate::sorting::{arranged, key_values, sort_by_keys, stable_order};

verus! {

/// A landmark: where it is, and how its frame saw it.
#[derive(Clone, Copy, Debug)]
pub struct VisionMapPoint {
    /// The position (m).
    pub position: [Double; 3],
    /// The pixel in the frame's image.
    pub uv: [Single; 2],
    /// The descriptor.
    pub descriptor: [Single; 128],
    /// The score of the detection.
    pub score: Single,
}

/// A key frame: a pose and the landmarks that were seen from it.
#[derive(Debug)]
pub struct VisionKeyFrame {
    /// The frame's number.
    pub id: u64,
    /// The time of the image (s).
    pub timestamp: Double,
    /// The position (m).
    pub position: [Double; 3],
    /// The orientation as a quaternion, the real part last.
    pub quat_xyzw: [Double; 4],
    /// The landmarks.
    pub points: Vec<VisionMapPoint>,
}

/// A map of key frames.
#[derive(Debug)]
pub struct VisionMap {
    /// The frames, in the order of their numbers.
    pub frames: Vec<VisionKeyFrame>,
}

/// The landmarks of the first `k` frames.
pub open spec fn landmarks(frames: Seq<VisionKeyFrame>, k: int) -> int
    decreases k,
{
    if k <= 0 {
        0
    } else {
        landmarks(frames, k - 1) + frames[k - 1].points@.len()
    }
}

/// More frames have no fewer landmarks.
proof fn lemma_landmarks_monotonic(frames: Seq<VisionKeyFrame>, i: int, j: int)
    requires
        0 <= i <= j <= frames.len(),
    ensures
        0 <= landmarks(frames, i) <= landmarks(frames, j),
    decreases j,
{
    if i < j {
        lemma_landmarks_monotonic(frames, i, j - 1);
    } else if i > 0 {
        lemma_landmarks_monotonic(frames, i - 1, i - 1);
    }
}

/// The first `n` frames whose squared distance is at most `limit`.
pub open spec fn within(distances: Seq<Double>, limit: Double, n: int) -> Seq<usize>
    decreases n,
{
    if n <= 0 {
        seq![]
    } else if distances[n - 1].spec_le(limit) {
        within(distances, limit, n - 1).push((n - 1) as usize)
    } else {
        within(distances, limit, n - 1)
    }
}

/// The places of the listed frames' distances in the order of all numbers.
pub open spec fn ranks(distances: Seq<Double>, list: Seq<usize>) -> Seq<int> {
    Seq::new(list.len(), |i: int| distances[list[i] as int].rank())
}

/// Whether `list` holds the frames within the limit, the nearest first; frames at
/// the same distance keep their order.
pub open spec fn nearest_first(distances: Seq<Double>, limit: Double, list: Seq<usize>) -> bool {
    let near = within(distances, limit, distances.len() as int);
    exists|order: Seq<int>|
        stable_order(ranks(distances, near), order) && list == #[trigger] arranged(near, order)
}

/// The least squared distance of a frame to the first `n` selected ones; infinite
/// without any. What is not a number does not count.
pub open spec fn gap(apart: spec_fn(int, int) -> Double, frame: int, selected: Seq<usize>, n: int) -> Double
    decreases n,
{
    if n <= 0 {
        Double { bits: INFINITY_BITS }
    } else {
        let rest = gap(apart, frame, selected, n - 1);
        let d = apart(frame, selected[n - 1] as int);
        if d.spec_lt(rest) {
            d
        } else {
            rest
        }
    }
}

/// The place of the frame with the largest gap among the first `n`, and the gap:
/// the first of them, and only one above minus one counts.
pub open spec fn widest(
    apart: spec_fn(int, int) -> Double,
    remaining: Seq<usize>,
    selected: Seq<usize>,
    n: int,
) -> (int, Double)
    decreases n,
{
    if n <= 0 {
        (0, Double { bits: MINUS_ONE_BITS })
    } else {
        let rest = widest(apart, remaining, selected, n - 1);
        let g = gap(apart, remaining[n - 1] as int, selected, selected.len() as int);
        if rest.1.spec_lt(g) {
            (n - 1, g)
        } else {
            rest
        }
    }
}

/// The selection, grown by the frame farthest from it until it has `max` frames.
pub open spec fn spread(
    apart: spec_fn(int, int) -> Double,
    selected: Seq<usize>,
    remaining: Seq<usize>,
    max: int,
) -> Seq<usize>
    decreases remaining.len(),
{
    if selected.len() >= max || remaining.len() == 0 {
        selected
    } else {
        let best = widest(apart, remaining, selected, remaining.len() as int).0;
        if 0 <= best < remaining.len() {
            spread(apart, selected.push(remaining[best]), remaining.remove(best), max)
        } else {
            selected
        }
    }
}

/// The widest gap is that of one of the frames.
proof fn lemma_widest(apart: spec_fn(int, int) -> Double, remaining: Seq<usize>, selected: Seq<usize>, n: int)
    requires
        0 < n,
    ensures
        0 <= widest(apart, remaining, selected, n).0 < n,
    decreases n,
{
    reveal_with_fuel(widest, 2);
    if n > 1 {
        lemma_widest(apart, remaining, selected, n - 1);
    }
}

/// The squared distances of frames from a position.
pub open spec fn distances_from<D: Fn([Double; 3], [Double; 3]) -> Double>(
    frames: Seq<VisionKeyFrame>,
    position: [Double; 3],
    square: D,
) -> Seq<Double> {
    Seq::new(frames.len(), |i: int| gauged(square, frames[i].position, position))
}

/// The squared distances between frames.
pub open spec fn frame_gaps<D: Fn([Double; 3], [Double; 3]) -> Double>(
    frames: Seq<VisionKeyFrame>,
    square: D,
) -> spec_fn(int, int) -> Double {
    |i: int, j: int| gauged(square, frames[i].position, frames[j].position)
}

impl VisionMap {
    /// A map without frames.
    pub fn new() -> (m: VisionMap)
        ensures
            m.frames@.len() == 0,
    {
        VisionMap { frames: Vec::new() }
    }

    /// The number of landmarks.
    pub fn num_points(&self) -> (n: usize)
        requires
            landmarks(self.frames@, self.frames@.len() as int) <= usize::MAX,
        ensures
            n == landmarks(self.frames@, self.frames@.len() as int),
    {
        let mut n: usize = 0;
        let mut k: usize = 0;
        while k < self.frames.len()
            invariant
                k <= self.frames@.len(),
                n == landmarks(self.frames@, k as int),
                landmarks(self.frames@, self.frames@.len() as int) <= usize::MAX,
            decreases self.frames@.len() - k,
        {
            proof {
                lemma_landmarks_monotonic(self.frames@, k + 1, self.frames@.len() as int);
            }
            n += self.frames[k].points.len();
            k += 1;
        }
        n
    }

    /// The frames within a radius, the nearest first. `distances` are the squared
    /// distances of all frames, `radius_sq` the squared radius.
    fn scored_in_radius(&self, distances: &Vec<Double>, radius_sq: Double) -> (list: Vec<usize>)
        requires
            distances@.len() == self.frames@.len(),
        ensures
            nearest_first(distances@, radius_sq, list@),
    {
        let mut list: Vec<usize> = Vec::new();
        let mut keys: Vec<i128> = Vec::new();
        let mut i: usize = 0;
        while i < distances.len()
            invariant
                i <= distances@.len(),
                list@ == within(distances@, radius_sq, i as int),
                keys@.len() == list@.len(),
                forall|k: int| 0 <= k < list@.len() ==> #[trigger] list@[k] < distances@.len(),
                forall|k: int|
                    0 <= k < keys@.len() ==> #[trigger] keys@[k] == distances@[list@[k] as int].rank(),
            decreases distances@.len() - i,
        {
            let ghost before = (list@, keys@);
            if distances[i].le(radius_sq) {
                list.push(i);
                keys.push(distances[i].rank_key());
            }
            assert forall|k: int| 0 <= k < keys@.len() implies #[trigger] keys@[k]
                == distances@[list@[k] as int].rank() by {
                if k < before.1.len() {
                    assert(keys@[k] == before.1[k]);
                    assert(list@[k] == before.0[k]);
                }
            }
            i += 1;
        }
        assert(key_values(keys@) =~= ranks(distances@, list@));
        sort_by_keys(&mut list, &mut keys);
        list
    }

    /// The squared distances of all frames from a position.
    fn distances<D: Fn([Double; 3], [Double; 3]) -> Double>(
        &self,
        position: &[Double; 3],
        square: &D,
    ) -> (list: Vec<Double>)
        requires
            gauges(*square),
        ensures
            list@ == distances_from(self.frames@, *position, *square),
    {
        let mut list: Vec<Double> = Vec::new();
        let mut i: usize = 0;
        while i < self.frames.len()
            invariant
                i <= self.frames@.len(),
                gauges(*square),
                list@ == distances_from(self.frames@, *position, *square).take(i as int),
            decreases self.frames@.len() - i,
        {
            list.push(apply_gauge(square, self.frames[i].position, *position));
            assert(list@ =~= distances_from(self.frames@, *position, *square).take(i + 1));
            i += 1;
        }
        assert(list@ =~= distances_from(self.frames@, *position, *square));
        list
    }

    /// The frames within a radius of a position, the nearest first, at most
    /// `max_frames`. `square` gives the squared distance of two points.
    pub fn query_neighbors<
        T: Fn(Double, Double) -> Double,
        D: Fn([Double; 3], [Double; 3]) -> Double,
    >(
        &self,
        position: &[Double; 3],
        radius: Double,
        max_frames: usize,
        times: &T,
        square: &D,
    ) -> (list: Vec<usize>)
        requires
            binary(*times),
            gauges(*square),
        ensures
            exists|all: Seq<usize>| #[trigger]
                nearest_first(
                    distances_from(self.frames@, *position, *square),
                    of_two(*times, radius, radius),
                    all,
                ) && list@ == (if all.len() > max_frames {
                    all.take(max_frames as int)
                } else {
                    all
                }),
    {
        let distances = self.distances(position, square);
        let radius_sq = apply_two(times, radius, radius);
        let mut list = self.scored_in_radius(&distances, radius_sq);
        let ghost all = list@;
        if list.len() > max_frames {
            list.truncate(max_frames);
            assert(list@ =~= all.take(max_frames as int));
        }
        assert(nearest_first(distances@, radius_sq, all));
        list
    }

    /// Frames within a radius of a position that lie far from each other, at most
    /// `max_frames`: the nearest, then always the one farthest from those before
    /// it. `square` gives the squared distance of two points.
    pub fn query_diverse<
        T: Fn(Double, Double) -> Double,
        D: Fn([Double; 3], [Double; 3]) -> Double,
    >(
        &self,
        position: &[Double; 3],
        radius: Double,
        max_frames: usize,
        times: &T,
        square: &D,
    ) -> (list: Vec<usize>)
        requires
            binary(*times),
            gauges(*square),
        ensures
            exists|all: Seq<usize>| #[trigger]
                nearest_first(
                    distances_from(self.frames@, *position, *square),
                    of_two(*times, radius, radius),
                    all,
                ) && list@ == (if all.len() == 0 || max_frames == 0 {
                    seq![]
                } else {
                    spread(
                        frame_gaps(self.frames@, *square),
                        all.take(1),
                        all.skip(1),
                        max_frames as int,
                    )
                }),
    {
        let distances = self.distances(position, square);
        let radius_sq = apply_two(times, radius, radius);
        let ghost apart = frame_gaps(self.frames@, *square);
        let mut selected = self.scored_in_radius(&distances, radius_sq);
        let ghost all = selected@;
        assert(nearest_first(distances@, radius_sq, all));
        proof {
            assert(distances.len() == distances@.len());
            lemma_nearest_in_range(distances@, radius_sq, all);
        }
        if selected.len() == 0 || max_frames == 0 {
            return Vec::new();
        }
        let mut remaining = selected.split_off(1);
        proof {
            assert(selected@ =~= all.take(1));
            assert(remaining@ =~= all.skip(1));
        }
        while selected.len() < max_frames && remaining.len() > 0
            invariant
                gauges(*square),
                apart == frame_gaps(self.frames@, *square),
                distances@.len() == self.frames@.len(),
                forall|k: int| 0 <= k < selected@.len() ==> #[trigger] selected@[k] < distances@.len(),
                forall|k: int|
                    0 <= k < remaining@.len() ==> #[trigger] remaining@[k] < distances@.len(),
                spread(apart, selected@, remaining@, max_frames as int) == spread(
                    apart,
                    all.take(1),
                    all.skip(1),
                    max_frames as int,
                ),
            decreases remaining@.len(),
        {
            let best: usize = farthest(&self.frames, square, &remaining, &selected);
            let ghost before = selected@;
            let next: usize = remaining.remove(best);
            selected.push(next);
        }
        selected
    }
}

/// The frames of a sorted list are frames of the map.
proof fn lemma_nearest_in_range(distances: Seq<Double>, limit: Double, list: Seq<usize>)
    requires
        nearest_first(distances, limit, list),
        distances.len() <= usize::MAX,
    ensures
        forall|k: int|
            0 <= k < list.len() ==> #[trigger] list[k] < distances.len()
                && distances[list[k] as int].spec_le(limit),
{
    let near = within(distances, limit, distances.len() as int);
    lemma_within(distances, limit, distances.len() as int);
    let order = choose|order: Seq<int>|
        stable_order(ranks(distances, near), order) && list == #[trigger] arranged(near, order);
    assert forall|k: int| 0 <= k < list.len() implies #[trigger] list[k] < distances.len()
        && distances[list[k] as int].spec_le(limit) by {
        assert(list[k] == near[order[k]]);
    }
}

/// The frames within the limit are in range, within the limit, and ascending.
proof fn lemma_within(distances: Seq<Double>, limit: Double, n: int)
    requires
        0 <= n <= distances.len(),
        distances.len() <= usize::MAX,
    ensures
        forall|k: int|
            0 <= k < within(distances, limit, n).len() ==> #[trigger] within(distances, limit, n)[k]
                < n && distances[within(distances, limit, n)[k] as int].spec_le(limit),
        forall|i: int, j: int|
            0 <= i < j < within(distances, limit, n).len() ==> #[trigger] within(
                distances,
                limit,
                n,
            )[i] < #[trigger] within(distances, limit, n)[j],
    decreases n,
{
    if n > 0 {
        lemma_within(distances, limit, n - 1);
        let rest = within(distances, limit, n - 1);
        let all = within(distances, limit, n);
        assert forall|k: int| 0 <= k < all.len() implies #[trigger] all[k] < n
            && distances[all[k] as int].spec_le(limit) by {
            if k < rest.len() {
                assert(all[k] == rest[k]);
            }
        }
        assert forall|i: int, j: int| 0 <= i < j < all.len() implies #[trigger] all[i]
            < #[trigger] all[j] by {
            assert(all[i] == rest[i]);
            if j < rest.len() {
                assert(all[j] == rest[j]);
            }
        }
    }
}

/// The place of the remaining frame that is farthest from the selected ones.
fn farthest<D: Fn([Double; 3], [Double; 3]) -> Double>(
    frames: &Vec<VisionKeyFrame>,
    square: &D,
    remaining: &Vec<usize>,
    selected: &Vec<usize>,
) -> (best: usize)
    requires
        remaining@.len() > 0,
        gauges(*square),
        forall|k: int| 0 <= k < remaining@.len() ==> #[trigger] remaining@[k] < frames@.len(),
        forall|k: int| 0 <= k < selected@.len() ==> #[trigger] selected@[k] < frames@.len(),
    ensures
        best < remaining@.len(),
        best == widest(
            frame_gaps(frames@, *square),
            remaining@,
            selected@,
            remaining@.len() as int,
        ).0,
{
    let mut best: usize = 0;
    let mut best_gap = Double::minus_one();
    let ghost apart = frame_gaps(frames@, *square);
    let mut k: usize = 0;
    while k < remaining.len()
        invariant
            k <= remaining@.len(),
            best < remaining@.len(),
            gauges(*square),
            apart == frame_gaps(frames@, *square),
            forall|q: int| 0 <= q < remaining@.len() ==> #[trigger] remaining@[q] < frames@.len(),
            forall|q: int| 0 <= q < selected@.len() ==> #[trigger] selected@[q] < frames@.len(),
            (best as int, best_gap) == widest(apart, remaining@, selected@, k as int),
        decreases remaining@.len() - k,
    {
        let frame: usize = remaining[k];
        let mut least = Double { bits: INFINITY_BITS };
        let mut j: usize = 0;
        while j < selected.len()
            invariant
                j <= selected@.len(),
                gauges(*square),
                apart == frame_gaps(frames@, *square),
                frame < frames@.len(),
                forall|q: int| 0 <= q < selected@.len() ==> #[trigger] selected@[q] < frames@.len(),
                least == gap(apart, frame as int, selected@, j as int),
            decreases selected@.len() - j,
        {
            let d = apply_gauge(square, frames[frame].position, frames[selected[j]].position);
            if d.lt(least) {
                least = d;
            }
            j += 1;
        }
        if best_gap.lt(least) {
            best_gap = least;
            best = k;
        }
        k += 1;
    }
    best
}

/// Every frame that a query lists lies within the radius, and none is listed twice.
pub proof fn law_neighbors_lie_within(distances: Seq<Double>, limit: Double, list: Seq<usize>)
    requires
        distances.len() <= usize::MAX,
        nearest_first(distances, limit, list),
    ensures
        forall|k: int|
            0 <= k < list.len() ==> #[trigger] list[k] < distances.len()
                && distances[list[k] as int].spec_le(limit),
        list.no_duplicates(),
        forall|i: int, j: int|
            0 <= i < j < list.len() ==> !distances[#[trigger] list[j] as int].spec_lt(
                distances[#[trigger] list[i] as int],
            ),
{
    lemma_nearest_in_range(distances, limit, list);
    let near = within(distances, limit, distances.len() as int);
    lemma_within(distances, limit, distances.len() as int);
    let order = choose|order: Seq<int>|
        stable_order(ranks(distances, near), order) && list == #[trigger] arranged(near, order);
    assert forall|i: int, j: int| 0 <= i < list.len() && 0 <= j < list.len() && i != j implies list[i]
        != list[j] by {
        assert(order[i] != order[j]);
        assert(near[order[i]] != near[order[j]]) by {
            if order[i] < order[j] {
                assert(near[order[i]] < near[order[j]]);
            } else {
                assert(near[order[j]] < near[order[i]]);
            }
        }
    }
    assert forall|i: int, j: int| 0 <= i < j < list.len() implies !distances[#[trigger] list[j] as int].spec_lt(
        distances[#[trigger] list[i] as int],
    ) by {
        let r = ranks(distances, near);
        assert(r[order[i]] <= r[order[j]]);
        assert(r[order[i]] == distances[list[i] as int].rank());
        assert(r[order[j]] == distances[list[j] as int].rank());
    }
}

/// A spread selection keeps what it starts with, names no frame twice, and has
/// `max` frames unless there are fewer.
pub proof fn law_spread_selects_distinct(
    apart: spec_fn(int, int) -> Double,
    selected: Seq<usize>,
    remaining: Seq<usize>,
    max: int,
)
    requires
        (selected + remaining).no_duplicates(),
        selected.len() <= max,
    ensures
        ({
            let list = spread(apart, selected, remaining, max);
            &&& list.no_duplicates()
            &&& selected.is_prefix_of(list)
            &&& list.len() == (if selected.len() + remaining.len() < max {
                selected.len() + remaining.len()
            } else {
                max as nat
            })
            &&& forall|k: int|
                0 <= k < list.len() ==> (selected + remaining).contains(#[trigger] list[k])
        }),
    decreases remaining.len(),
{
    let list = spread(apart, selected, remaining, max);
    let all = selected + remaining;
    if selected.len() >= max || remaining.len() == 0 {
        assert forall|i: int, j: int|
            0 <= i < selected.len() && 0 <= j < selected.len() && i != j implies selected[i]
            != selected[j] by {
            assert(all[i] != all[j]);
        }
        assert forall|k: int| 0 <= k < list.len() implies all.contains(#[trigger] list[k]) by {
            assert(all[k] == list[k]);
        }
    } else {
        lemma_widest(apart, remaining, selected, remaining.len() as int);
        let best = widest(apart, remaining, selected, remaining.len() as int).0;
        let grown = selected.push(remaining[best]);
        let fewer = remaining.remove(best);
        let both = grown + fewer;
        let n = selected.len() as int;
        let source = |k: int|
            if k < n {
                k
            } else if k == n {
                n + best
            } else if k <= n + best {
                k - 1
            } else {
                k
            };
        assert forall|k: int| 0 <= k < both.len() implies #[trigger] both[k] == all[source(k)] by {}
        assert forall|i: int, j: int| 0 <= i < both.len() && 0 <= j < both.len() && i != j implies both[i]
            != both[j] by {
            assert(source(i) != source(j));
            assert(all[source(i)] != all[source(j)]);
        }
        law_spread_selects_distinct(apart, grown, fewer, max);
        assert forall|k: int| 0 <= k < list.len() implies all.contains(#[trigger] list[k]) by {
            assert(both.contains(list[k]));
            let w = both.index_of(list[k]);
            assert(all[source(w)] == list[k]);
        }
        assert forall|k: int| 0 <= k < n implies selected[k] == list[k] by {
            assert(grown[k] == list[k]);
        }
    }
}

/// Whether no distance between listed frames is negative.
pub open spec fn frames_apart(apart: spec_fn(int, int) -> Double, list: Seq<usize>) -> bool {
    forall|a: usize, b: usize|
        list.contains(a) && list.contains(b) ==> (Double { bits: 0 }).spec_le(
            #[trigger] apart(a as int, b as int),
        )
}

/// A gap between frames is not negative where no distance is.
proof fn lemma_gap(
    apart: spec_fn(int, int) -> Double,
    frame: usize,
    selected: Seq<usize>,
    n: int,
    list: Seq<usize>,
)
    requires
        frames_apart(apart, list),
        list.contains(frame),
        0 <= n <= selected.len(),
        forall|k: int| 0 <= k < selected.len() ==> list.contains(#[trigger] selected[k]),
    ensures
        (Double { bits: 0 }).spec_le(gap(apart, frame as int, selected, n)),
    decreases n,
{
    if n > 0 {
        lemma_gap(apart, frame, selected, n - 1, list);
        assert(list.contains(selected[n - 1]));
        assert((Double { bits: 0 }).spec_le(apart(frame as int, selected[n - 1] as int)));
    }
}

/// The widest gap is that of its frame, and no frame has a wider one.
proof fn lemma_widest_of_all(
    apart: spec_fn(int, int) -> Double,
    remaining: Seq<usize>,
    selected: Seq<usize>,
    n: int,
)
    requires
        0 < n <= remaining.len(),
        frames_apart(apart, selected + remaining),
    ensures
        ({
            let (best, g) = widest(apart, remaining, selected, n);
            let m = selected.len() as int;
            &&& 0 <= best < n
            &&& g == gap(apart, remaining[best] as int, selected, m)
            &&& forall|k: int|
                0 <= k < n ==> !g.spec_lt(gap(apart, (#[trigger] remaining[k]) as int, selected, m))
        }),
    decreases n,
{
    let m = selected.len() as int;
    let all = selected + remaining;
    assert forall|k: int| 0 <= k < selected.len() implies all.contains(#[trigger] selected[k]) by {
        assert(all[k] == selected[k]);
    }
    assert(all[m + n - 1] == remaining[n - 1]);
    lemma_gap(apart, remaining[n - 1], selected, m, all);
    if n > 1 {
        lemma_widest_of_all(apart, remaining, selected, n - 1);
    } else {
        assert(widest(apart, remaining, selected, 0) == (0int, Double { bits: MINUS_ONE_BITS }));
    }
}

/// Each frame that a spread selection picks is the farthest of those that are left:
/// no other is farther from its nearest one among those before.
pub proof fn law_each_pick_is_the_farthest(
    apart: spec_fn(int, int) -> Double,
    selected: Seq<usize>,
    remaining: Seq<usize>,
    max: int,
    k: int,
    other: usize,
)
    requires
        (selected + remaining).no_duplicates(),
        selected.len() <= max,
        frames_apart(apart, selected + remaining),
        selected.len() <= k < spread(apart, selected, remaining, max).len(),
        (selected + remaining).contains(other),
        !spread(apart, selected, remaining, max).take(k).contains(other),
    ensures
        ({
            let list = spread(apart, selected, remaining, max);
            let before = list.take(k);
            !gap(apart, list[k] as int, before, k).spec_lt(gap(apart, other as int, before, k))
        }),
    decreases remaining.len(),
{
    let list = spread(apart, selected, remaining, max);
    let all = selected + remaining;
    let n = selected.len() as int;
    if selected.len() < max && remaining.len() > 0 {
        lemma_widest_of_all(apart, remaining, selected, remaining.len() as int);
        let best = widest(apart, remaining, selected, remaining.len() as int).0;
        let grown = selected.push(remaining[best]);
        let fewer = remaining.remove(best);
        let both = grown + fewer;
        let source = |i: int|
            if i < n {
                i
            } else if i == n {
                n + best
            } else if i <= n + best {
                i - 1
            } else {
                i
            };
        assert forall|i: int| 0 <= i < both.len() implies #[trigger] both[i] == all[source(i)] by {}
        assert forall|i: int, j: int| 0 <= i < both.len() && 0 <= j < both.len() && i != j implies both[i]
            != both[j] by {
            assert(source(i) != source(j));
            assert(all[source(i)] != all[source(j)]);
        }
        law_spread_selects_distinct(apart, grown, fewer, max);
        let w = all.index_of(other);
        assert(all[w] == other);
        assert forall|i: int| 0 <= i <= n implies grown[i] == #[trigger] list[i] by {}
        if k == n {
            assert(list.take(k) =~= selected);
            assert(list[k] == remaining[best]);
            if w < n {
                assert(list.take(k)[w] == other);
            }
            assert(remaining[w - n] == other);
        } else {
            let v = if w < n {
                w
            } else if w == n + best {
                n
            } else if w < n + best {
                w + 1
            } else {
                w
            };
            assert(both[v] == other);
            assert(frames_apart(apart, both)) by {
                assert forall|a: usize, b: usize|
                    both.contains(a) && both.contains(b) implies (Double { bits: 0 }).spec_le(
                    #[trigger] apart(a as int, b as int),
                ) by {
                    assert(all[source(both.index_of(a))] == a);
                    assert(all[source(both.index_of(b))] == b);
                }
            }
            law_each_pick_is_the_farthest(apart, grown, fewer, max, k, other);
        }
    }
}

/// What a query for diverse frames gives: no frame twice, all within the radius, as many
/// as asked for unless fewer are near, the nearest first, and then always the one that
/// is farthest from its nearest before it.
pub proof fn law_diverse_frames(
    apart: spec_fn(int, int) -> Double,
    distances: Seq<Double>,
    limit: Double,
    all: Seq<usize>,
    max: int,
)
    requires
        distances.len() <= usize::MAX,
        nearest_first(distances, limit, all),
        all.len() > 0,
        max > 0,
        frames_apart(apart, all),
    ensures
        ({
            let list = spread(apart, all.take(1), all.skip(1), max);
            &&& list.no_duplicates()
            &&& list.len() == (if all.len() < max {
                all.len()
            } else {
                max as nat
            })
            &&& list[0] == all[0]
            &&& forall|k: int|
                0 <= k < list.len() ==> #[trigger] list[k] < distances.len()
                    && distances[list[k] as int].spec_le(limit)
            &&& forall|k: int, other: usize|
                1 <= k < list.len() && all.contains(other) && !list.take(k).contains(other)
                    ==> !gap(apart, #[trigger] list[k] as int, list.take(k), k).spec_lt(
                    #[trigger] gap(apart, other as int, list.take(k), k),
                )
        }),
{
    let list = spread(apart, all.take(1), all.skip(1), max);
    law_neighbors_lie_within(distances, limit, all);
    assert(all.take(1) + all.skip(1) =~= all);
    law_spread_selects_distinct(apart, all.take(1), all.skip(1), max);
    assert(all.take(1)[0] == all[0]);
    assert forall|k: int| 0 <= k < list.len() implies #[trigger] list[k] < distances.len()
        && distances[list[k] as int].spec_le(limit) by {
        assert(all.contains(list[k]));
        let w = all.index_of(list[k]);
        assert(all[w] == list[k]);
    }
    assert forall|k: int, other: usize|
        1 <= k < list.len() && all.contains(other) && !list.take(k).contains(other) implies !gap(
        apart,
        #[trigger] list[k] as int,
        list.take(k),
        k,
    ).spec_lt(#[trigger] gap(apart, other as int, list.take(k), k)) by {
        law_each_pick_is_the_farthest(apart, all.take(1), all.skip(1), max, k, other);
    }
}

} // verus!
