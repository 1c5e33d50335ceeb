//! What becomes of tracks: which measurements stay, which features an image update uses,
//! and which pairs of measurements tell how far an image moved.

use vstd::prelude::*;

use crate::double::Double;
use crate::sorting::{arranged, lemma_find, stable_order};
use crate::vio::feature_update::{present, track_cleaned};
use crate::vio::selection::{
    admitted, known_flags, last_of, lengths, listed, longest, lost_flags, negated, seen_by,
    short_flags, tracked_long,
};
use crate::vio::options::StateOptions;
use crate::vio::state::State;
use crate::vio::state_helper::feature_known;
use crate::vio::updater::kept;
use crate::vio::updater_helper::{clone_at, CameraTrack, Feature};
use crate::vio::updater_slam::{anchor_leaves, leaving};
use crate::vio::updater_zero_velocity::{feature_pairs, time_at, track_pairs, MeasurementPair};

verus! {

/// The flagged items stay and no others, and each stays behind those before it.
pub proof fn law_flagged_items_stay<T>(items: Seq<T>, keep: Seq<bool>, n: int, x: T)
    requires
        0 <= n <= items.len(),
        items.len() == keep.len(),
    ensures
        kept(items, keep, n).contains(x) <==> exists|i: int|
            0 <= i < n && keep[i] && #[trigger] items[i] == x,
        kept(items, keep, n).len() <= n,
    decreases n,
{
    if n > 0 {
        law_flagged_items_stay(items, keep, n - 1, x);
        let less = kept(items, keep, n - 1);
        let all = kept(items, keep, n);
        if keep[n - 1] {
            if less.contains(x) {
                let k = choose|k: int| 0 <= k < less.len() && less[k] == x;
                assert(all[k] == x);
            }
            if items[n - 1] == x {
                assert(all[less.len() as int] == x);
            }
            if all.contains(x) {
                let k = choose|k: int| 0 <= k < all.len() && all[k] == x;
                if k < less.len() {
                    assert(less[k] == x);
                }
            }
        }
    }
}

/// Lists that are thinned by the same flags stay side by side.
proof fn lemma_side_by_side<A, B>(a: Seq<A>, b: Seq<B>, keep: Seq<bool>, n: int, j: int) -> (i: int)
    requires
        0 <= n <= keep.len(),
        a.len() == keep.len(),
        b.len() == keep.len(),
        0 <= j < kept(a, keep, n).len(),
    ensures
        kept(a, keep, n).len() == kept(b, keep, n).len(),
        0 <= i < n,
        keep[i],
        kept(a, keep, n)[j] == a[i],
        kept(b, keep, n)[j] == b[i],
    decreases n,
{
    lemma_as_long(a, b, keep, n);
    lemma_as_long(a, b, keep, n - 1);
    if keep[n - 1] && j == kept(a, keep, n - 1).len() {
        n - 1
    } else {
        lemma_side_by_side(a, b, keep, n - 1, j)
    }
}

/// Lists that are thinned by the same flags are as long.
proof fn lemma_as_long<A, B>(a: Seq<A>, b: Seq<B>, keep: Seq<bool>, n: int)
    ensures
        kept(a, keep, n).len() == kept(b, keep, n).len(),
    decreases n,
{
    if n > 0 {
        lemma_as_long(a, b, keep, n - 1);
    }
}

/// The first clone at a time is one, if there is any.
proof fn lemma_clone_at(st: &State, t: Double, i: int)
    requires
        0 <= i <= st.clones_imu@.len(),
    ensures
        i <= clone_at(st.clones_imu@, t, i) <= st.clones_imu@.len(),
        clone_at(st.clones_imu@, t, i) < st.clones_imu@.len() <==> exists|c: int|
            i <= c < st.clones_imu@.len() && (#[trigger] st.clones_imu@[c]).0 == t,
    decreases st.clones_imu@.len() - i,
{
    if i < st.clones_imu@.len() && st.clones_imu@[i].0 != t {
        lemma_clone_at(st, t, i + 1);
        if exists|c: int| i <= c < st.clones_imu@.len() && (#[trigger] st.clones_imu@[c]).0 == t {
            let c = choose|c: int| i <= c < st.clones_imu@.len() && (#[trigger] st.clones_imu@[c]).0 == t;
            assert(i + 1 <= c);
        }
    }
}

/// Cleaning a track leaves the measurements at times of clones and no others, each with
/// its own pixel.
pub proof fn law_cleaned_tracks_are_at_clones(
    st: &State,
    before: CameraTrack,
    after: CameraTrack,
    i: int,
    j: int,
)
    requires
        track_cleaned(st, before, after),
        before.uvs@.len() == before.timestamps@.len(),
    ensures
        after.cam_id == before.cam_id,
        after.uvs@.len() == after.timestamps@.len(),
        0 <= i < before.timestamps@.len() && (exists|c: int|
            0 <= c < st.clones_imu@.len() && (#[trigger] st.clones_imu@[c]).0 == before.timestamps@[i])
            ==> after.timestamps@.contains(before.timestamps@[i]) && after.uvs@.contains(
            before.uvs@[i],
        ),
        0 <= j < after.timestamps@.len() ==> (exists|c: int|
            0 <= c < st.clones_imu@.len() && (#[trigger] st.clones_imu@[c]).0 == after.timestamps@[j])
            && (exists|k: int|
            0 <= k < before.timestamps@.len() && #[trigger] before.timestamps@[k] == after.timestamps@[j]
                && before.uvs@[k] == after.uvs@[j]),
{
    let keep = present(st, before.timestamps@);
    let n = before.timestamps@.len() as int;
    lemma_as_long(before.timestamps@, before.uvs@, keep, n);
    if 0 <= i < n {
        lemma_clone_at(st, before.timestamps@[i], 0);
        law_flagged_items_stay(before.timestamps@, keep, n, before.timestamps@[i]);
        law_flagged_items_stay(before.uvs@, keep, n, before.uvs@[i]);
    }
    if 0 <= j < after.timestamps@.len() {
        let k = lemma_side_by_side(before.timestamps@, before.uvs@, keep, n, j);
        lemma_clone_at(st, before.timestamps@[k], 0);
        assert(before.timestamps@[k] == after.timestamps@[j]);
    }
}

/// Of the lost features those are used that a camera of the image saw and that the
/// leaving clone did not see; those that the leaving clone saw are parted by whether a
/// camera tracked them for longer than the window.
pub proof fn law_features_are_parted(
    lost: Seq<Feature>,
    marg: Seq<Feature>,
    ids: Seq<i32>,
    most: usize,
    i: int,
)
    ensures
        0 <= i < lost.len() && (exists|k: int|
            0 <= k < lost[i].tracks@.len() && ids.contains(
                (#[trigger] lost[i].tracks@[k]).cam_id as i32,
            )) && (forall|k: int| 0 <= k < marg.len() ==> (#[trigger] marg[k]).featid != lost[i].featid)
            ==> kept(lost, lost_flags(lost, marg, ids), lost.len() as int).contains(lost[i]),
        forall|f: Feature| #[trigger]
            kept(lost, lost_flags(lost, marg, ids), lost.len() as int).contains(f) ==> lost.contains(f)
                && seen_by(f, ids) && !listed(marg, f.featid),
        forall|f: Feature| #[trigger]
            kept(marg, short_flags(marg, most), marg.len() as int).contains(f) ==> marg.contains(f) && (
            forall|k: int|
                0 <= k < f.tracks@.len() ==> (#[trigger] f.tracks@[k]).timestamps@.len() <= most),
        forall|f: Feature| #[trigger]
            kept(marg, negated(short_flags(marg, most)), marg.len() as int).contains(f)
                ==> marg.contains(f) && (exists|k: int|
                0 <= k < f.tracks@.len() && (#[trigger] f.tracks@[k]).timestamps@.len() > most),
{
    let flags = lost_flags(lost, marg, ids);
    let short = short_flags(marg, most);
    let long = negated(short);
    if 0 <= i < lost.len() {
        law_flagged_items_stay(lost, flags, lost.len() as int, lost[i]);
        if (exists|k: int|
            0 <= k < lost[i].tracks@.len() && ids.contains(
                (#[trigger] lost[i].tracks@[k]).cam_id as i32,
            )) && (forall|k: int| 0 <= k < marg.len() ==> (#[trigger] marg[k]).featid != lost[i].featid) {
            assert(seen_by(lost[i], ids));
            assert(!listed(marg, lost[i].featid));
            assert(flags[i]);
        }
    }
    assert forall|f: Feature| #[trigger] kept(lost, flags, lost.len() as int).contains(f) implies lost.contains(
        f,
    ) && seen_by(f, ids) && !listed(marg, f.featid) by {
        law_flagged_items_stay(lost, flags, lost.len() as int, f);
    }
    assert forall|f: Feature| #[trigger] kept(marg, short, marg.len() as int).contains(f) implies marg.contains(
        f,
    ) && (forall|k: int|
        0 <= k < f.tracks@.len() ==> (#[trigger] f.tracks@[k]).timestamps@.len() <= most) by {
        law_flagged_items_stay(marg, short, marg.len() as int, f);
        assert(!tracked_long(f, most));
    }
    assert forall|f: Feature| #[trigger] kept(marg, long, marg.len() as int).contains(f) implies marg.contains(
        f,
    ) && (exists|k: int|
        0 <= k < f.tracks@.len() && (#[trigger] f.tracks@[k]).timestamps@.len() > most) by {
        law_flagged_items_stay(marg, long, marg.len() as int, f);
        assert(tracked_long(f, most));
    }
}

/// Every feature for the state goes either to the update or to those that enter, as the
/// state holds it or not.
pub proof fn law_state_features_are_parted(st: &State, slam: Seq<Feature>, f: Feature)
    ensures
        ({
            let n = slam.len() as int;
            let known = known_flags(st, slam);
            let update = kept(slam, known, n);
            let enter = kept(slam, negated(known), n);
            &&& update.contains(f) <==> slam.contains(f) && feature_known(st, f.featid)
            &&& enter.contains(f) <==> slam.contains(f) && !feature_known(st, f.featid)
        }),
{
    let n = slam.len() as int;
    let known = known_flags(st, slam);
    law_flagged_items_stay(slam, known, n, f);
    law_flagged_items_stay(slam, negated(known), n, f);
    if slam.contains(f) {
        let i = choose|i: int| 0 <= i < slam.len() && slam[i] == f;
        assert(known[i] == feature_known(st, f.featid));
    }
}

/// The longest tracks are used: what is left out of the pool is no longer than anything
/// that is used, and what is used comes from the pool.
pub proof fn law_longest_tracks_are_used(pool: Seq<Feature>, chosen: Seq<Feature>, most: int, p: int)
    requires
        longest(pool, chosen, most),
        0 <= most,
        0 <= p < pool.len(),
    ensures
        forall|c: int| 0 <= c < chosen.len() ==> pool.contains(#[trigger] chosen[c]),
        chosen.contains(pool[p]) || forall|c: int|
            0 <= c < chosen.len() ==> pool[p].spec_measurements() <= (
            #[trigger] chosen[c]).spec_measurements(),
{
    let order = choose|order: Seq<int>|
        stable_order(lengths(pool), order) && chosen == last_of(#[trigger] arranged(pool, order), most);
    let all = arranged(pool, order);
    let gone = if all.len() > most {
        all.len() - most
    } else {
        0
    };
    assert forall|c: int| 0 <= c < chosen.len() implies pool.contains(#[trigger] chosen[c]) by {
        assert(chosen[c] == all[gone + c]);
        assert(all[gone + c] == pool[order[gone + c]]);
    }
    let q = lemma_find(order, pool.len() as int, p);
    assert(all[q] == pool[p]);
    if q >= gone {
        assert(chosen[q - gone] == pool[p]);
    } else {
        assert forall|c: int| 0 <= c < chosen.len() implies pool[p].spec_measurements() <= (
        #[trigger] chosen[c]).spec_measurements() by {
            let r = gone + c;
            assert(chosen[c] == all[r]);
            assert(lengths(pool)[order[q]] <= lengths(pool)[order[r]]);
        }
    }
}

/// No more features enter than the state has room for, and none before the delay.
pub proof fn law_features_enter_as_there_is_room(
    o: StateOptions,
    known: int,
    long: int,
    delay: Double,
    elapsed: Double,
)
    requires
        0 <= known,
        0 <= long,
    ensures
        0 <= admitted(o, known, long, delay, elapsed) <= long,
        known <= o.max_slam_features ==> known + admitted(o, known, long, delay, elapsed)
            <= o.max_slam_features,
        elapsed.spec_lt(delay) ==> admitted(o, known, long, delay, elapsed) == 0,
        delay.spec_le(elapsed) && known + long <= o.max_slam_features ==> admitted(
            o,
            known,
            long,
            delay,
            elapsed,
        ) == long,
{
}

/// A feature is anchored anew exactly if it is relative to the clone that leaves.
pub proof fn law_leaving_anchors_are_listed(st: &State, near: Seq<bool>, n: int, i: usize)
    requires
        0 <= n <= st.features_slam@.len(),
        n <= usize::MAX,
    ensures
        leaving(st, near, n).contains(i) <==> i < n && near[i as int]
            && st.features_slam@[i as int].representation.spec_is_relative(),
    decreases n,
{
    if n > 0 {
        law_leaving_anchors_are_listed(st, near, n - 1, i);
        let less = leaving(st, near, n - 1);
        let all = leaving(st, near, n);
        if anchor_leaves(st, near, n - 1) {
            if less.contains(i) {
                let k = choose|k: int| 0 <= k < less.len() && less[k] == i;
                assert(all[k] == i);
            }
            if i == n - 1 {
                assert(all[less.len() as int] == i);
            }
            if all.contains(i) {
                let k = choose|k: int| 0 <= k < all.len() && all[k] == i;
                if k < less.len() {
                    assert(less[k] == i);
                }
            }
        }
    }
}

/// The first place of a time in a list holds it.
proof fn lemma_time_place(times: Seq<Double>, t: Double, i: int)
    requires
        0 <= i <= times.len(),
    ensures
        i <= time_at(times, t, i) <= times.len(),
        time_at(times, t, i) < times.len() ==> times[time_at(times, t, i)] == t,
        time_at(times, t, i) == times.len() ==> forall|k: int| i <= k < times.len() ==> #[trigger] times[k] != t,
    decreases times.len() - i,
{
    if i < times.len() && times[i] != t {
        lemma_time_place(times, t, i + 1);
    }
}

/// Whether a pair is made of measurements of one feature by one camera at two times.
pub open spec fn is_pair(features: Seq<Feature>, p: MeasurementPair, t0: Double, t1: Double) -> bool {
    &&& p.feature < features.len()
    &&& p.track < features[p.feature as int].tracks@.len()
    &&& ({
        let times = features[p.feature as int].tracks@[p.track as int].timestamps@;
        p.first < times.len() && p.second < times.len() && times[p.first as int] == t0
            && times[p.second as int] == t1
    })
}

/// The pairs of a feature.
proof fn lemma_track_pairs_hold(features: Seq<Feature>, f: int, k: int, t0: Double, t1: Double)
    requires
        0 <= f < features.len() <= usize::MAX,
        0 <= k <= features[f].tracks@.len() <= usize::MAX,
        forall|q: int|
            0 <= q < features[f].tracks@.len() ==> (
            #[trigger] features[f].tracks@[q]).timestamps@.len() <= usize::MAX,
    ensures
        forall|i: int|
            0 <= i < track_pairs(features[f].tracks@, f, k, t0, t1).len() ==> is_pair(
                features,
                #[trigger] track_pairs(features[f].tracks@, f, k, t0, t1)[i],
                t0,
                t1,
            ),
    decreases k,
{
    if k > 0 {
        lemma_track_pairs_hold(features, f, k - 1, t0, t1);
        let times = features[f].tracks@[k - 1].timestamps@;
        lemma_time_place(times, t0, 0);
        lemma_time_place(times, t1, 0);
        assert(features[f].tracks@[k - 1].timestamps@.len() <= usize::MAX);
        let less = track_pairs(features[f].tracks@, f, k - 1, t0, t1);
        let all = track_pairs(features[f].tracks@, f, k, t0, t1);
        assert forall|i: int| 0 <= i < all.len() implies is_pair(features, #[trigger] all[i], t0, t1) by {
            if i < less.len() {
                assert(all[i] == less[i]);
                assert(is_pair(features, less[i], t0, t1));
            }
        }
    }
}

/// How far an image moved is told from pairs of measurements of the same feature by the
/// same camera, the first at the first time and the second at the second.
pub proof fn law_pairs_are_of_one_feature(features: Seq<Feature>, n: int, t0: Double, t1: Double)
    requires
        0 <= n <= features.len() <= usize::MAX,
        forall|f: int| 0 <= f < features.len() ==> (#[trigger] features[f]).tracks@.len() <= usize::MAX,
        forall|f: int, q: int|
            0 <= f < features.len() && 0 <= q < features[f].tracks@.len() ==> (
            #[trigger] features[f].tracks@[q]).timestamps@.len() <= usize::MAX,
    ensures
        forall|i: int|
            0 <= i < feature_pairs(features, n, t0, t1).len() ==> is_pair(
                features,
                #[trigger] feature_pairs(features, n, t0, t1)[i],
                t0,
                t1,
            ),
    decreases n,
{
    if n > 0 {
        law_pairs_are_of_one_feature(features, n - 1, t0, t1);
        assert(features[n - 1].tracks@.len() <= usize::MAX);
        let last = features[n - 1].tracks@;
        lemma_track_pairs_hold(features, n - 1, last.len() as int, t0, t1);
        let less = feature_pairs(features, n - 1, t0, t1);
        let more = track_pairs(last, n - 1, last.len() as int, t0, t1);
        let all = feature_pairs(features, n, t0, t1);
        assert forall|i: int| 0 <= i < all.len() implies is_pair(features, #[trigger] all[i], t0, t1) by {
            if i < less.len() {
                assert(all[i] == less[i]);
            } else {
                assert(all[i] == more[i - less.len()]);
            }
        }
    }
}

} // verus!
