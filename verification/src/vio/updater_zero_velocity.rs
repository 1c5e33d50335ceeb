//! The zero-velocity update: when it is tried, and when it is believed.
//!
//! An attempt first goes through three steps. [`UpdaterZeroVelocity::begin`] and
//! [`UpdaterZeroVelocity::readings_selected`] decide whether there is enough to
//! look at; [`UpdaterZeroVelocity::judge`] weighs residual, speed and disparity.

use vstd::prelude::*;

use crate::algebra::{list_of, ring, sum_list, summed, Ring};
use crate::arith::{apply_count, apply_two, binary, counted, counts, of_two};
use crate::double::Double;
use crate::matrix::Matrix;
use crate::vio::options::UpdaterOptions;
use crate::vio::state::{Run, State};
use crate::vio::updater_helper::{CameraTrack, Feature};

verus! {

/// A pair of measurements of one feature by one camera.
#[derive(Clone, Copy, Debug, PartialEq, Eq, Structural)]
pub struct MeasurementPair {
    /// The feature.
    pub feature: usize,
    /// The camera's track.
    pub track: usize,
    /// The measurement at the first time.
    pub first: usize,
    /// The measurement at the second time.
    pub second: usize,
}

/// The first measurement at time `t` from place `i` on; the number of
/// measurements if there is none.
pub open spec fn time_at(times: Seq<Double>, t: Double, i: int) -> int
    decreases times.len() - i,
{
    if i >= times.len() {
        times.len() as int
    } else if times[i] == t {
        i
    } else {
        time_at(times, t, i + 1)
    }
}

/// The first measurement at time `t`, if there is one.
fn find_time(times: &Vec<Double>, t: Double) -> (place: Option<usize>)
    ensures
        match place {
            Some(i) => i < times@.len() && i == time_at(times@, t, 0),
            None => time_at(times@, t, 0) == times@.len(),
        },
{
    let mut i: usize = 0;
    while i < times.len()
        invariant
            i <= times@.len(),
            time_at(times@, t, 0) == time_at(times@, t, i as int),
        decreases times@.len() - i,
    {
        if times[i] == t {
            return Some(i);
        }
        i += 1;
    }
    None
}

/// Whether a track has a measurement at both times.
pub open spec fn common(times: Seq<Double>, t0: Double, t1: Double) -> bool {
    time_at(times, t0, 0) < times.len() && time_at(times, t1, 0) < times.len()
}

/// The pairs in the first `k` tracks of feature `f`.
pub open spec fn track_pairs(
    tracks: Seq<CameraTrack>,
    f: int,
    k: int,
    t0: Double,
    t1: Double,
) -> Seq<MeasurementPair>
    decreases k,
{
    if k <= 0 {
        seq![]
    } else {
        let rest = track_pairs(tracks, f, k - 1, t0, t1);
        let times = tracks[k - 1].timestamps@;
        if common(times, t0, t1) {
            rest.push(
                MeasurementPair {
                    feature: f as usize,
                    track: (k - 1) as usize,
                    first: time_at(times, t0, 0) as usize,
                    second: time_at(times, t1, 0) as usize,
                },
            )
        } else {
            rest
        }
    }
}

/// The pairs in the first `n` features.
pub open spec fn feature_pairs(
    features: Seq<Feature>,
    n: int,
    t0: Double,
    t1: Double,
) -> Seq<MeasurementPair>
    decreases n,
{
    if n <= 0 {
        seq![]
    } else {
        feature_pairs(features, n - 1, t0, t1) + track_pairs(
            features[n - 1].tracks@,
            n - 1,
            features[n - 1].tracks@.len() as int,
            t0,
            t1,
        )
    }
}

/// The pairs of measurements at two times; none if no camera saw a feature at both.
pub fn disparity_pairs(features: &Vec<Feature>, time0: Double, time1: Double) -> (pairs: Option<
    Vec<MeasurementPair>,
>)
    ensures
        match pairs {
            Some(p) => p@.len() > 0 && p@ == feature_pairs(
                features@,
                features@.len() as int,
                time0,
                time1,
            ),
            None => feature_pairs(features@, features@.len() as int, time0, time1).len() == 0,
        },
{
    let mut pairs: Vec<MeasurementPair> = Vec::new();
    let mut f: usize = 0;
    while f < features.len()
        invariant
            f <= features@.len(),
            pairs@ == feature_pairs(features@, f as int, time0, time1),
        decreases features@.len() - f,
    {
        let tracks = &features[f].tracks;
        let ghost start = pairs@;
        let mut k: usize = 0;
        assert(pairs@ =~= start + track_pairs(tracks@, f as int, 0, time0, time1));
        while k < tracks.len()
            invariant
                f < features@.len(),
                k <= tracks@.len(),
                *tracks == features@[f as int].tracks,
                pairs@ == start + track_pairs(tracks@, f as int, k as int, time0, time1),
            decreases tracks@.len() - k,
        {
            let times = &tracks[k].timestamps;
            if let Some(first) = find_time(times, time0) {
                if let Some(second) = find_time(times, time1) {
                    pairs.push(MeasurementPair { feature: f, track: k, first, second });
                }
            }
            assert(pairs@ =~= start + track_pairs(tracks@, f as int, k + 1, time0, time1));
            k += 1;
        }
        f += 1;
    }
    if pairs.len() == 0 {
        None
    } else {
        Some(pairs)
    }
}

/// Whether a pair names measurements that are there.
pub open spec fn pair_exists(features: Seq<Feature>, p: MeasurementPair) -> bool {
    &&& p.feature < features.len()
    &&& p.track < features[p.feature as int].tracks@.len()
    &&& p.first < features[p.feature as int].tracks@[p.track as int].timestamps@.len()
    &&& p.second < features[p.feature as int].tracks@[p.track as int].timestamps@.len()
}

/// The pairs of a feature name measurements that are there.
proof fn lemma_track_pairs(features: Seq<Feature>, f: int, k: int, t0: Double, t1: Double)
    requires
        0 <= f < features.len() <= usize::MAX,
        0 <= k <= features[f].tracks@.len() <= usize::MAX,
        forall|q: int|
            0 <= q < features[f].tracks@.len() ==> (
            #[trigger] features[f].tracks@[q]).timestamps@.len() <= usize::MAX,
    ensures
        forall|i: int|
            0 <= i < track_pairs(features[f].tracks@, f, k, t0, t1).len() ==> pair_exists(
                features,
                #[trigger] track_pairs(features[f].tracks@, f, k, t0, t1)[i],
            ),
    decreases k,
{
    if k > 0 {
        lemma_track_pairs(features, f, k - 1, t0, t1);
        let times = features[f].tracks@[k - 1].timestamps@;
        lemma_time_at(times, t0, 0);
        lemma_time_at(times, t1, 0);
        let less = track_pairs(features[f].tracks@, f, k - 1, t0, t1);
        let all = track_pairs(features[f].tracks@, f, k, t0, t1);
        assert(features[f].tracks@[k - 1].timestamps@.len() <= usize::MAX);
        assert forall|i: int| 0 <= i < all.len() implies pair_exists(features, #[trigger] all[i]) by {
            if i < less.len() {
                assert(all[i] == less[i]);
            }
        }
    }
}

/// A time is not found before where the search starts.
proof fn lemma_time_at(times: Seq<Double>, t: Double, i: int)
    requires
        0 <= i <= times.len(),
    ensures
        i <= time_at(times, t, i) <= times.len(),
    decreases times.len() - i,
{
    if i < times.len() && times[i] != t {
        lemma_time_at(times, t, i + 1);
    }
}

/// The pairs of a list name measurements that are there.
proof fn lemma_pairs(features: Seq<Feature>, n: int, t0: Double, t1: Double)
    requires
        0 <= n <= features.len() <= usize::MAX,
        forall|f: int|
            0 <= f < features.len() ==> (#[trigger] features[f]).tracks@.len() <= usize::MAX,
        forall|f: int, q: int|
            0 <= f < features.len() && 0 <= q < features[f].tracks@.len() ==> (
            #[trigger] features[f].tracks@[q]).timestamps@.len() <= usize::MAX,
    ensures
        forall|i: int|
            0 <= i < feature_pairs(features, n, t0, t1).len() ==> pair_exists(
                features,
                #[trigger] feature_pairs(features, n, t0, t1)[i],
            ),
    decreases n,
{
    if n > 0 {
        lemma_pairs(features, n - 1, t0, t1);
        let before = feature_pairs(features, n - 1, t0, t1);
        let k = features[n - 1].tracks@.len() as int;
        lemma_track_pairs(features, n - 1, k, t0, t1);
        let own = track_pairs(features[n - 1].tracks@, n - 1, k, t0, t1);
        let all = feature_pairs(features, n, t0, t1);
        assert forall|i: int| 0 <= i < all.len() implies pair_exists(features, #[trigger] all[i]) by {
            if i < before.len() {
                assert(all[i] == before[i]);
            } else {
                assert(all[i] == own[i - before.len()]);
            }
        }
    }
}

/// Whether the distance of pixels can be told, always the same.
pub open spec fn tells_distance<G: Fn([Double; 2], [Double; 2]) -> Double>(apart: G) -> bool {
    &&& forall|a: [Double; 2], b: [Double; 2]| #[trigger] call_requires(apart, (a, b))
    &&& forall|a: [Double; 2], b: [Double; 2], x: Double, y: Double| #[trigger]
        call_ensures(apart, (a, b), x) && #[trigger] call_ensures(apart, (a, b), y) ==> x == y
}

/// The distance of the two pixels of a pair.
pub open spec fn pair_distance<G: Fn([Double; 2], [Double; 2]) -> Double>(
    features: Seq<Feature>,
    p: MeasurementPair,
    apart: G,
) -> Double {
    let uvs = features[p.feature as int].tracks@[p.track as int].uvs@;
    choose|r: Double| call_ensures(apart, (uvs[p.second as int], uvs[p.first as int]), r)
}

/// The distances of the pairs of measurements at two times.
pub open spec fn disparities<G: Fn([Double; 2], [Double; 2]) -> Double>(
    features: Seq<Feature>,
    t0: Double,
    t1: Double,
    apart: G,
) -> Seq<Double> {
    let pairs = feature_pairs(features, features.len() as int, t0, t1);
    Seq::new(pairs.len(), |i: int| pair_distance(features, pairs[i], apart))
}

/// The mean of a list of numbers.
pub open spec fn mean_of<N: Fn(usize) -> Double, V: Fn(Double, Double) -> Double>(
    list: Seq<Double>,
    number: N,
    divide: V,
    op: Ring,
) -> Double {
    of_two(
        divide,
        summed(list_of(list), op, list.len() as int),
        counted(number, list.len() as usize),
    )
}

/// How far each number of a list is from another, squared.
pub open spec fn squares_about(list: Seq<Double>, mean: Double, op: Ring) -> Seq<Double> {
    Seq::new(
        list.len(),
        |i: int|
            (op.times)(
                (op.plus)(list[i], mean.spec_neg()),
                (op.plus)(list[i], mean.spec_neg()),
            ),
    )
}

/// Mean and variance of the distances between measurements at two times, and how
/// many there are; none without any.
pub open spec fn disparity_of<
    G: Fn([Double; 2], [Double; 2]) -> Double,
    N: Fn(usize) -> Double,
    V: Fn(Double, Double) -> Double,
>(
    features: Seq<Feature>,
    t0: Double,
    t1: Double,
    apart: G,
    number: N,
    divide: V,
    op: Ring,
) -> Option<(Double, Double, usize)> {
    let list = disparities(features, t0, t1, apart);
    if list.len() == 0 {
        None
    } else {
        let mean = mean_of(list, number, divide, op);
        let var = mean_of(squares_about(list, mean, op), number, divide, op);
        Some((mean, var, list.len() as usize))
    }
}

/// Mean and variance of the distances between measurements at two times, and how
/// many there are; none if no camera saw a feature at both.
pub fn compute_disparity<
    G: Fn([Double; 2], [Double; 2]) -> Double,
    N: Fn(usize) -> Double,
    P: Fn(Double, Double) -> Double,
    T: Fn(Double, Double) -> Double,
    V: Fn(Double, Double) -> Double,
>(
    features: &Vec<Feature>,
    time0: Double,
    time1: Double,
    apart: &G,
    number: &N,
    plus: &P,
    times: &T,
    divide: &V,
) -> (disparity: Option<(Double, Double, usize)>)
    requires
        forall|f: int| 0 <= f < features@.len() ==> (#[trigger] features@[f]).has_pixels(),
        tells_distance(*apart),
        counts(*number),
        binary(*plus),
        binary(*times),
        binary(*divide),
    ensures
        disparity == disparity_of(
            features@,
            time0,
            time1,
            *apart,
            *number,
            *divide,
            ring(*plus, *times),
        ),
{
    let ghost op = ring(*plus, *times);
    let pairs = match disparity_pairs(features, time0, time1) {
        None => {
            return None;
        },
        Some(p) => p,
    };
    proof {
        assert forall|f: int| 0 <= f < features@.len() implies (
        #[trigger] features@[f]).tracks@.len() <= usize::MAX by {
            assert(features@[f].tracks.len() <= usize::MAX);
        }
        assert forall|f: int, q: int|
            0 <= f < features@.len() && 0 <= q < features@[f].tracks@.len() implies (
        #[trigger] features@[f].tracks@[q]).timestamps@.len() <= usize::MAX by {
            assert(features@[f].tracks@[q].timestamps.len() <= usize::MAX);
        }
        assert(features.len() <= usize::MAX);
        lemma_pairs(features@, features@.len() as int, time0, time1);
    }
    let ghost want = disparities(features@, time0, time1, *apart);
    let mut list: Vec<Double> = Vec::new();
    let mut i: usize = 0;
    while i < pairs.len()
        invariant
            i <= pairs@.len(),
            pairs@ == feature_pairs(features@, features@.len() as int, time0, time1),
            want == disparities(features@, time0, time1, *apart),
            forall|k: int| 0 <= k < pairs@.len() ==> pair_exists(features@, #[trigger] pairs@[k]),
            forall|f: int| 0 <= f < features@.len() ==> (#[trigger] features@[f]).has_pixels(),
            tells_distance(*apart),
            list@.len() == i,
            forall|k: int| 0 <= k < i ==> #[trigger] list@[k] == want[k],
        decreases pairs@.len() - i,
    {
        let p = pairs[i];
        assert(pair_exists(features@, pairs@[i as int]));
        assert(features@[p.feature as int].has_pixels());
        let track = &features[p.feature].tracks[p.track];
        assert(track.uvs@.len() == track.timestamps@.len());
        let (a, b) = (track.uvs[p.second], track.uvs[p.first]);
        let r = apart(a, b);
        proof {
            assert(call_ensures(*apart, (a, b), r));
            assert(call_ensures(*apart, (a, b), pair_distance(features@, p, *apart)));
        }
        list.push(r);
        i += 1;
    }
    assert(list@ =~= want);
    let n = apply_count(number, list.len());
    let mean = apply_two(divide, sum_list(&list, list.len(), plus, times), n);
    let mut squares: Vec<Double> = Vec::new();
    let mut i: usize = 0;
    while i < list.len()
        invariant
            i <= list@.len(),
            op == ring(*plus, *times),
            binary(*plus),
            binary(*times),
            squares@.len() == i,
            forall|k: int| 0 <= k < i ==> #[trigger] squares@[k] == squares_about(list@, mean, op)[k],
        decreases list@.len() - i,
    {
        let off = apply_two(plus, list[i], mean.neg());
        squares.push(apply_two(times, off, off));
        i += 1;
    }
    assert(squares@ =~= squares_about(list@, mean, op));
    let var = apply_two(divide, sum_list(&squares, squares.len(), plus, times), n);
    Some((mean, var, list.len()))
}

/// The zero-velocity updater.
#[derive(Clone, Debug)]
pub struct UpdaterZeroVelocity {
    /// Factor on the chi-squared threshold, among others.
    pub options: UpdaterOptions,
    /// No update above this speed.
    pub zupt_max_velocity: Double,
    /// Factor on the measurement noise.
    pub zupt_noise_multiplier: Double,
    /// The disparity at or above which the image speaks against a standstill.
    pub zupt_max_disparity: Double,
    /// Constrain the integrated acceleration as well.
    pub integrated_accel_constraint: bool,
    /// The time of the last update; zero after a failed attempt.
    pub last_zupt_state_timestamp: Double,
    /// Updates one after another.
    pub last_zupt_count: usize,
    /// The time offset of the last attempt.
    pub last_prop_time_offset: Double,
    /// Whether a time offset was recorded.
    pub have_last_prop_time_offset: bool,
}

/// The layout of a zero-velocity system.
#[derive(Debug)]
pub struct ZuptLayout {
    /// The variables of the columns: orientation, the two biases and, where the
    /// acceleration is integrated, velocity.
    pub order: Vec<(i32, usize)>,
    /// The number of rows: six for each pair of readings.
    pub rows: usize,
    /// The number of columns.
    pub cols: usize,
}

/// How a zero-velocity system came out.
#[derive(Clone, Copy, Debug)]
pub struct ZuptAssessment {
    /// The rows that are left after compression.
    pub rows: usize,
    /// The normalized size of the residual.
    pub chi2: Double,
    /// The largest size that is used.
    pub threshold: Double,
    /// The mean disparity and over how many measurements, if there are any.
    pub disparity: Option<(Double, usize)>,
    /// The speed (m/s).
    pub speed: Double,
}

/// What an attempt came to.
#[derive(Clone, Copy, Debug, PartialEq, Eq, Structural)]
pub enum ZuptVerdict {
    /// Nothing to update with.
    Empty,
    /// The platform may be moving.
    Rejected,
    /// The platform stands still; measurements at the given time, if any, are dropped.
    Accepted(Option<Double>),
}

/// The columns of a zero-velocity system.
pub open spec fn zupt_runs(st: &State, integrated: bool) -> Seq<Run> {
    let base = st.imu.id;
    let always = seq![
        (base, 3usize),
        ((base + 9) as i32, 3usize),
        ((base + 12) as i32, 3usize),
    ];
    if integrated {
        always.push(((base + 6) as i32, 3usize))
    } else {
        always
    }
}

/// Whether the image shows a standstill: a small mean disparity over more than
/// twenty measurements.
pub open spec fn still_image(disparity: Option<(Double, usize)>, max: Double) -> bool {
    match disparity {
        Some((mean, n)) => mean.spec_lt(max) && n > 20,
        None => false,
    }
}

impl UpdaterZeroVelocity {
    /// An updater that has not tried anything.
    pub fn new(
        options: UpdaterOptions,
        zupt_max_velocity: Double,
        zupt_noise_multiplier: Double,
        zupt_max_disparity: Double,
        integrated_accel_constraint: bool,
    ) -> (u: UpdaterZeroVelocity)
        ensures
            u == (UpdaterZeroVelocity {
                options,
                zupt_max_velocity,
                zupt_noise_multiplier,
                zupt_max_disparity,
                integrated_accel_constraint,
                last_zupt_state_timestamp: Double { bits: 0 },
                last_zupt_count: 0,
                last_prop_time_offset: Double { bits: 0 },
                have_last_prop_time_offset: false,
            }),
    {
        UpdaterZeroVelocity {
            options,
            zupt_max_velocity,
            zupt_noise_multiplier,
            zupt_max_disparity,
            integrated_accel_constraint,
            last_zupt_state_timestamp: Double::zero(),
            last_zupt_count: 0,
            last_prop_time_offset: Double::zero(),
            have_last_prop_time_offset: false,
        }
    }

    /// The updater after an attempt that came to nothing.
    pub open spec fn gave_up(self) -> UpdaterZeroVelocity {
        UpdaterZeroVelocity { last_zupt_state_timestamp: Double { bits: 0 }, ..self }
    }

    /// Starts an attempt to update to `timestamp`; `t_off` is the present time
    /// offset. Without readings, or with the state there already, there is
    /// nothing to do. Else the result is the offset of the last attempt.
    pub fn begin(&mut self, state: &State, timestamp: Double, readings: usize, t_off: Double) -> (
        offset: Option<Double>)
        ensures
            offset is Some <==> readings > 0 && state.timestamp != timestamp,
            offset is None ==> *final(self) == old(self).gave_up(),
            offset is Some ==> offset == Some(
                if old(self).have_last_prop_time_offset {
                    old(self).last_prop_time_offset
                } else {
                    t_off
                },
            ) && *final(self) == (UpdaterZeroVelocity {
                last_prop_time_offset: offset->0,
                have_last_prop_time_offset: true,
                ..*old(self)
            }),
    {
        if readings == 0 {
            self.last_zupt_state_timestamp = Double::zero();
            return None;
        }
        if state.timestamp == timestamp {
            self.last_zupt_state_timestamp = Double::zero();
            return None;
        }
        if !self.have_last_prop_time_offset {
            self.last_prop_time_offset = t_off;
            self.have_last_prop_time_offset = true;
        }
        Some(self.last_prop_time_offset)
    }

    /// Takes the number of readings between the two times, if they could be
    /// selected. With at least two the system is laid out.
    pub fn readings_selected(&mut self, state: &State, selected: Option<usize>, t_off: Double) -> (
        layout: Option<ZuptLayout>)
        requires
            selected matches Some(n) ==> 6 * n <= usize::MAX,
            0 <= state.imu.id <= i32::MAX - 12,
        ensures
            layout is Some <==> (selected matches Some(n) && n >= 2),
            selected is None ==> *final(self) == old(self).gave_up(),
            selected is Some && layout is None ==> *final(self) == (UpdaterZeroVelocity {
                last_prop_time_offset: t_off,
                ..old(self).gave_up()
            }),
            layout matches Some(l) ==> {
                &&& *final(self) == (UpdaterZeroVelocity {
                    last_prop_time_offset: t_off,
                    ..*old(self)
                })
                &&& l.order@ == zupt_runs(state, old(self).integrated_accel_constraint)
                &&& l.rows == 6 * (selected->0 - 1)
                &&& l.cols == (if old(self).integrated_accel_constraint {
                    12int
                } else {
                    9
                })
            },
    {
        match selected {
            None => {
                self.last_zupt_state_timestamp = Double::zero();
                None
            },
            Some(n) => {
                self.last_prop_time_offset = t_off;
                if n < 2 {
                    self.last_zupt_state_timestamp = Double::zero();
                    return None;
                }
                let base: i32 = state.imu.id;
                let mut order: Vec<(i32, usize)> = Vec::new();
                order.push((base, 3));
                order.push((base + 9, 3));
                order.push((base + 12, 3));
                let mut cols: usize = 9;
                if self.integrated_accel_constraint {
                    order.push((base + 6, 3));
                    cols = 12;
                }
                assert(order@ =~= zupt_runs(state, self.integrated_accel_constraint));
                Some(ZuptLayout { order, rows: 6 * (n - 1), cols })
            },
        }
    }

    /// Weighs an attempt. `rows` is what the compressed system has left. The
    /// update is refused if the image does not show a standstill and either the
    /// residual or the speed is too large. Once two updates have gone before,
    /// an accepted one drops the measurements at the last one's time.
    pub fn judge(
        &mut self,
        rows: usize,
        chi2: Double,
        threshold: Double,
        disparity: Option<(Double, usize)>,
        speed: Double,
    ) -> (verdict: ZuptVerdict)
        ensures
            ({
                let refused = !still_image(disparity, old(self).zupt_max_disparity) && (
                threshold.spec_lt(chi2) || old(self).zupt_max_velocity.spec_lt(speed));
                &&& verdict == (if rows < 1 {
                    ZuptVerdict::Empty
                } else if refused {
                    ZuptVerdict::Rejected
                } else {
                    ZuptVerdict::Accepted(
                        if old(self).last_zupt_count >= 2 {
                            Some(old(self).last_zupt_state_timestamp)
                        } else {
                            None
                        },
                    )
                })
                &&& *final(self) == (if verdict is Rejected {
                    UpdaterZeroVelocity { last_zupt_count: 0, ..old(self).gave_up() }
                } else {
                    *old(self)
                })
            }),
    {
        if rows < 1 {
            return ZuptVerdict::Empty;
        }
        let still = match disparity {
            Some((mean, n)) => mean.lt(self.zupt_max_disparity) && n > 20,
            None => false,
        };
        if !still && (threshold.lt(chi2) || self.zupt_max_velocity.lt(speed)) {
            self.last_zupt_state_timestamp = Double::zero();
            self.last_zupt_count = 0;
            return ZuptVerdict::Rejected;
        }
        if self.last_zupt_count >= 2 {
            ZuptVerdict::Accepted(Some(self.last_zupt_state_timestamp))
        } else {
            ZuptVerdict::Accepted(None)
        }
    }

    /// The columns of a system.
    pub open spec fn columns(&self) -> usize {
        if self.integrated_accel_constraint {
            12
        } else {
            9
        }
    }

    /// The updater once the offset of an attempt is known.
    pub open spec fn offset_known(self, t_off: Double) -> UpdaterZeroVelocity {
        UpdaterZeroVelocity {
            last_prop_time_offset: if self.have_last_prop_time_offset {
                self.last_prop_time_offset
            } else {
                t_off
            },
            have_last_prop_time_offset: true,
            ..self
        }
    }

    /// Whether the image does not show a standstill, and the residual or the speed
    /// is too large.
    pub open spec fn refuses(&self, a: ZuptAssessment) -> bool {
        !still_image(a.disparity, self.zupt_max_disparity) && (a.threshold.spec_lt(a.chi2)
            || self.zupt_max_velocity.spec_lt(a.speed))
    }

    /// Records an update to `timestamp`: the state is there now, without a clone.
    pub fn commit(&mut self, state: &mut State, timestamp: Double)
        requires
            old(self).last_zupt_count < usize::MAX,
        ensures
            *final(state) == (State { timestamp, ..*old(state) }),
            *final(self) == (UpdaterZeroVelocity {
                last_zupt_state_timestamp: timestamp,
                last_zupt_count: (old(self).last_zupt_count + 1) as usize,
                ..*old(self)
            }),
    {
        state.timestamp = timestamp;
        self.last_zupt_state_timestamp = timestamp;
        self.last_zupt_count += 1;
    }
}

/// The derivatives of one pair of readings, each three by three.
#[derive(Debug)]
pub struct ReadingBlocks {
    /// Angular velocity by gyroscope bias.
    pub gyro_bias: Matrix,
    /// Acceleration by orientation.
    pub accel_rotation: Matrix,
    /// Acceleration by accelerometer bias.
    pub accel_bias: Matrix,
    /// Acceleration by velocity, where it is integrated.
    pub accel_velocity: Matrix,
}

impl ReadingBlocks {
    /// Whether every block is three by three.
    pub open spec fn wf(&self) -> bool {
        &&& self.gyro_bias.shaped(3, 3)
        &&& self.accel_rotation.shaped(3, 3)
        &&& self.accel_bias.shaped(3, 3)
        &&& self.accel_velocity.shaped(3, 3)
    }

    /// The entry in row `i` (of six) and column `j`: the angular velocity takes
    /// the first three rows, the acceleration the others.
    pub open spec fn entry(&self, integrated: bool, i: int, j: int) -> Double {
        if i < 3 && 3 <= j < 6 {
            self.gyro_bias.at(i, j - 3)
        } else if i >= 3 && j < 3 {
            self.accel_rotation.at(i - 3, j)
        } else if i >= 3 && 6 <= j < 9 {
            self.accel_bias.at(i - 3, j - 6)
        } else if i >= 3 && j >= 9 && integrated {
            self.accel_velocity.at(i - 3, j - 9)
        } else {
            Double { bits: 0 }
        }
    }
}

/// The entry of a system for row `i` (of six) of pair `k`.
pub open spec fn pair_at(h: &Matrix, k: int, i: int, j: int) -> Double {
    h.at(6 * k + i, j)
}

/// Puts the zero-velocity system together, six rows for each pair of readings.
pub fn assemble_zupt(blocks: &Vec<ReadingBlocks>, integrated: bool) -> (h: Matrix)
    requires
        forall|k: int| 0 <= k < blocks@.len() ==> (#[trigger] blocks@[k]).wf(),
        72 * blocks@.len() <= usize::MAX,
    ensures
        h.shaped(
            6 * blocks@.len() as int,
            if integrated {
                12
            } else {
                9
            },
        ),
        forall|k: int, i: int, j: int|
            0 <= k < blocks@.len() && 0 <= i < 6 && 0 <= j < h.width() ==> #[trigger] pair_at(
                &h,
                k,
                i,
                j,
            ) == blocks@[k].entry(integrated, i, j),
{
    let n: usize = blocks.len();
    let cols: usize = if integrated {
        12
    } else {
        9
    };
    let mut h = Matrix::filled(6 * n, cols, Double::zero());
    let mut k: usize = 0;
    while k < n
        invariant
            k <= n,
            n == blocks@.len(),
            72 * n <= usize::MAX,
            cols == (if integrated {
                12int
            } else {
                9
            }),
            forall|q: int| 0 <= q < n ==> (#[trigger] blocks@[q]).wf(),
            h.shaped(6 * n, cols as int),
            forall|r: int, j: int|
                h.has(r, j) && r >= 6 * k ==> #[trigger] h.at(r, j) == (Double { bits: 0 }),
            forall|q: int, i: int, j: int|
                0 <= q < k && 0 <= i < 6 && 0 <= j < cols ==> #[trigger] pair_at(&h, q, i, j)
                    == blocks@[q].entry(integrated, i, j),
        decreases n - k,
    {
        let b = &blocks[k];
        assert(blocks@[k as int].wf());
        let ghost before = h;
        h.set_block(6 * k, 3, &b.gyro_bias);
        h.set_block(6 * k + 3, 0, &b.accel_rotation);
        h.set_block(6 * k + 3, 6, &b.accel_bias);
        if integrated {
            h.set_block(6 * k + 3, 9, &b.accel_velocity);
        }
        assert forall|q: int, i: int, j: int|
            0 <= q < k + 1 && 0 <= i < 6 && 0 <= j < cols implies #[trigger] pair_at(&h, q, i, j)
            == blocks@[q].entry(integrated, i, j) by {
            let r = 6 * q + i;
            assert(before.has(r, j));
            if q < k {
                assert(pair_at(&before, q, i, j) == blocks@[q].entry(integrated, i, j));
            }
        }
        k += 1;
    }
    h
}

/// A standing image overrules residual and speed: the attempt is never refused.
pub proof fn law_still_image_overrules(
    u: UpdaterZeroVelocity,
    mean: Double,
    n: usize,
)
    requires
        mean.spec_lt(u.zupt_max_disparity),
        n > 20,
    ensures
        still_image(Some((mean, n)), u.zupt_max_disparity),
{
}

} // verus!
