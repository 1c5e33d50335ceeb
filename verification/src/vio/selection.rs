//! Which tracked features an image update uses, and for what.
//!
//! Features that were lost, that the leaving clone saw or that were tracked for
//! long update the window; some of the last enter the state instead, and the
//! features of the state are updated as long as they are tracked.

use vstd::prelude::*;

use crate::double::Double;
use crate::matrix::Matrix;
use crate::sorting::{arranged, key_values, sort_by_keys, stable_order};
use crate::vio::estimates::InertialValues;
use crate::vio::landmark::Landmark;
use crate::vio::options::StateOptions;
use crate::vio::standstill::{ImuCalibration, ImuReading};
use crate::vio::state::State;
use crate::vio::state_helper::{
    feature_known, features_marginalized, features_survive, law_window_stays_bounded,
    marginalize_slam, same_window, window_slid,
};
use crate::vio::updater::kept;
use crate::vio::updater_helper::Feature;
use crate::vio::updater_slam::find_landmark;
use crate::vio::vio_manager::{goes_on, propagated, Prediction, VioManager};

verus! {

/// The features of an image update.
#[derive(Debug)]
pub struct Selection {
    /// For the update of the window, the shortest tracks first.
    pub msckf: Vec<Feature>,
    /// For the update of state features.
    pub slam_update: Vec<Feature>,
    /// For entering the state.
    pub slam_delayed: Vec<Feature>,
}

/// The opposite flags.
pub open spec fn negated(flags: Seq<bool>) -> Seq<bool> {
    Seq::new(flags.len(), |i: int| !flags[i])
}

/// Whether one of the cameras saw a feature.
pub open spec fn seen_by(f: Feature, ids: Seq<i32>) -> bool {
    exists|k: int|
        0 <= k < f.tracks@.len() && ids.contains((#[trigger] f.tracks@[k]).cam_id as i32)
}

/// Whether a feature number is in the list.
pub open spec fn listed(features: Seq<Feature>, featid: usize) -> bool {
    exists|k: int| 0 <= k < features.len() && (#[trigger] features[k]).featid == featid
}

/// Whether some camera has more than `most` measurements of a feature.
pub open spec fn tracked_long(f: Feature, most: usize) -> bool {
    exists|k: int| 0 <= k < f.tracks@.len() && (#[trigger] f.tracks@[k]).timestamps@.len() > most
}

/// Which lost features are used: those that a camera of the image saw and that
/// the leaving clone did not.
pub open spec fn lost_flags(lost: Seq<Feature>, marg: Seq<Feature>, ids: Seq<i32>) -> Seq<bool> {
    Seq::new(
        lost.len(),
        |i: int| seen_by(lost[i], ids) && !listed(marg, lost[i].featid),
    )
}

/// Which features of the leaving clone were not tracked for long.
pub open spec fn short_flags(marg: Seq<Feature>, most: usize) -> Seq<bool> {
    Seq::new(marg.len(), |i: int| !tracked_long(marg[i], most))
}

/// How many of `long` features may enter a state that holds `known`.
pub open spec fn admitted(
    o: StateOptions,
    known: int,
    long: int,
    delay: Double,
    elapsed: Double,
) -> int {
    if o.max_slam_features > 0 && delay.spec_le(elapsed) && known < o.max_slam_features {
        if o.max_slam_features - known < long {
            o.max_slam_features - known
        } else {
            long
        }
    } else {
        0
    }
}

/// The features among the first `n` entries.
pub open spec fn present(found: Seq<Option<Feature>>, n: int) -> Seq<Feature>
    decreases n,
{
    if n <= 0 {
        seq![]
    } else {
        match found[n - 1] {
            Some(f) => present(found, n - 1).push(f),
            None => present(found, n - 1),
        }
    }
}

/// A state feature after its track was looked up: it is to leave once its first
/// camera has lost it, or after two updates have failed.
pub open spec fn marked(l: Landmark, found: Option<Feature>, ids: Seq<i32>) -> Landmark {
    Landmark {
        should_marg: l.should_marg || (found is None && ids.contains(l.unique_camera_id))
            || l.update_fail_count > 1,
        ..l
    }
}

/// Whether `after` is `before` with its features marked.
pub open spec fn features_marked(
    before: &State,
    after: &State,
    found: Seq<Option<Feature>>,
    ids: Seq<i32>,
) -> bool {
    &&& *after == (State { features_slam: after.features_slam, ..*before })
    &&& after.features_slam@.len() == before.features_slam@.len()
    &&& forall|k: int|
        0 <= k < before.features_slam@.len() ==> #[trigger] after.features_slam@[k] == marked(
            before.features_slam@[k],
            found[k],
            ids,
        )
}

/// Which features the state holds.
pub open spec fn known_flags(st: &State, features: Seq<Feature>) -> Seq<bool> {
    Seq::new(features.len(), |i: int| feature_known(st, features[i].featid))
}

/// The features for the state: of those tracked for long, the last `new`, and the
/// tracks of the features that it holds.
pub open spec fn state_candidates(
    long: Seq<Feature>,
    found: Seq<Option<Feature>>,
    new: int,
) -> Seq<Feature> {
    long.skip(long.len() - new) + present(found, found.len() as int)
}

/// The features for the window, before they are sorted.
pub open spec fn window_pool(
    lost: Seq<Feature>,
    short: Seq<Feature>,
    long: Seq<Feature>,
    new: int,
) -> Seq<Feature> {
    lost + short + long.take(long.len() - new)
}

/// The numbers of measurements.
pub open spec fn lengths(features: Seq<Feature>) -> Seq<int> {
    Seq::new(features.len(), |i: int| features[i].spec_measurements())
}

/// The last `most` items.
pub open spec fn last_of<T>(items: Seq<T>, most: int) -> Seq<T> {
    if items.len() > most {
        items.skip(items.len() - most)
    } else {
        items
    }
}

/// Whether `chosen` are the `most` longest tracks of `pool`, in ascending order;
/// tracks of equal length keep their order.
pub open spec fn longest(pool: Seq<Feature>, chosen: Seq<Feature>, most: int) -> bool {
    exists|order: Seq<int>|
        stable_order(lengths(pool), order) && chosen == last_of(#[trigger] arranged(pool, order), most)
}

/// Parts with the items that are not to be kept.
fn split_flagged<T>(items: &mut Vec<T>, keep: &Vec<bool>) -> (dropped: Vec<T>)
    requires
        keep@.len() == old(items)@.len(),
    ensures
        final(items)@ == kept(old(items)@, keep@, keep@.len() as int),
        dropped@ == kept(old(items)@, negated(keep@), keep@.len() as int),
{
    let n: usize = items.len();
    let ghost first = items@;
    let ghost other = negated(keep@);
    let mut dropped: Vec<T> = Vec::new();
    let mut i: usize = 0;
    let mut k: usize = 0;
    assert(items@ =~= kept(first, keep@, 0) + first.skip(0));
    while k < n
        invariant
            k <= n,
            n == keep@.len(),
            n == first.len(),
            i <= k,
            other == negated(keep@),
            i == kept(first, keep@, k as int).len(),
            items@ == kept(first, keep@, k as int) + first.skip(k as int),
            dropped@ == kept(first, other, k as int),
        decreases n - k,
    {
        let ghost done = kept(first, keep@, k as int);
        let ghost rest = first.skip(k as int);
        assert(rest[0] == first[k as int]);
        assert(rest.skip(1) =~= first.skip(k + 1));
        assert(other[k as int] == !keep@[k as int]);
        if keep[k] {
            assert(items@ =~= done.push(rest[0]) + rest.skip(1));
            i += 1;
        } else {
            let gone = items.remove(i);
            dropped.push(gone);
            assert(items@ =~= done + rest.skip(1));
        }
        k += 1;
    }
    assert(items@ =~= kept(first, keep@, n as int));
    dropped
}

/// Whether a number is in the list.
fn contains_id(ids: &Vec<i32>, id: i32) -> (yes: bool)
    ensures
        yes == ids@.contains(id),
{
    let mut k: usize = 0;
    while k < ids.len()
        invariant
            k <= ids@.len(),
            forall|q: int| 0 <= q < k ==> ids@[q] != id,
        decreases ids@.len() - k,
    {
        if ids[k] == id {
            return true;
        }
        k += 1;
    }
    false
}

/// Whether one of the cameras saw a feature.
fn feature_seen(f: &Feature, ids: &Vec<i32>) -> (yes: bool)
    ensures
        yes == seen_by(*f, ids@),
{
    let mut k: usize = 0;
    while k < f.tracks.len()
        invariant
            k <= f.tracks@.len(),
            forall|q: int|
                0 <= q < k ==> !ids@.contains((#[trigger] f.tracks@[q]).cam_id as i32),
        decreases f.tracks@.len() - k,
    {
        let cam: i32 = #[verifier::truncate]
        (f.tracks[k].cam_id as i32);
        if contains_id(ids, cam) {
            assert(ids@.contains(f.tracks@[k as int].cam_id as i32));
            return true;
        }
        k += 1;
    }
    false
}

/// Whether a feature number is in the list.
fn feature_listed(features: &Vec<Feature>, featid: usize) -> (yes: bool)
    ensures
        yes == listed(features@, featid),
{
    let mut k: usize = 0;
    while k < features.len()
        invariant
            k <= features@.len(),
            forall|q: int| 0 <= q < k ==> (#[trigger] features@[q]).featid != featid,
        decreases features@.len() - k,
    {
        if features[k].featid == featid {
            return true;
        }
        k += 1;
    }
    false
}

/// Whether some camera has more than `most` measurements of a feature.
fn feature_long(f: &Feature, most: usize) -> (yes: bool)
    ensures
        yes == tracked_long(*f, most),
{
    let mut k: usize = 0;
    while k < f.tracks.len()
        invariant
            k <= f.tracks@.len(),
            forall|q: int| 0 <= q < k ==> (#[trigger] f.tracks@[q]).timestamps@.len() <= most,
        decreases f.tracks@.len() - k,
    {
        if f.tracks[k].timestamps.len() > most {
            return true;
        }
        k += 1;
    }
    false
}

/// Drops the lost features that are not used.
fn retain_lost(lost: &mut Vec<Feature>, marg: &Vec<Feature>, ids: &Vec<i32>)
    ensures
        final(lost)@ == kept(
            old(lost)@,
            lost_flags(old(lost)@, marg@, ids@),
            old(lost)@.len() as int,
        ),
{
    let mut keep: Vec<bool> = Vec::new();
    let mut i: usize = 0;
    while i < lost.len()
        invariant
            i <= lost@.len(),
            lost@ == old(lost)@,
            keep@ == lost_flags(lost@, marg@, ids@).take(i as int),
        decreases lost@.len() - i,
    {
        let flag = feature_seen(&lost[i], ids) && !feature_listed(marg, lost[i].featid);
        keep.push(flag);
        assert(keep@ =~= lost_flags(lost@, marg@, ids@).take(i + 1));
        i += 1;
    }
    assert(keep@ =~= lost_flags(lost@, marg@, ids@));
    let _gone = split_flagged(lost, &keep);
}

/// Takes the features that were tracked for long out of the list.
fn split_long(marg: &mut Vec<Feature>, most: usize) -> (long: Vec<Feature>)
    ensures
        final(marg)@ == kept(
            old(marg)@,
            short_flags(old(marg)@, most),
            old(marg)@.len() as int,
        ),
        long@ == kept(
            old(marg)@,
            negated(short_flags(old(marg)@, most)),
            old(marg)@.len() as int,
        ),
{
    let mut keep: Vec<bool> = Vec::new();
    let mut i: usize = 0;
    while i < marg.len()
        invariant
            i <= marg@.len(),
            marg@ == old(marg)@,
            keep@ == short_flags(marg@, most).take(i as int),
        decreases marg@.len() - i,
    {
        let flag = !feature_long(&marg[i], most);
        keep.push(flag);
        assert(keep@ =~= short_flags(marg@, most).take(i + 1));
        i += 1;
    }
    assert(keep@ =~= short_flags(marg@, most));
    split_flagged(marg, &keep)
}

/// Marks the state features that are to leave.
fn mark_features(state: &mut State, found: &Vec<Option<Feature>>, ids: &Vec<i32>)
    requires
        found@.len() == old(state).features_slam@.len(),
    ensures
        features_marked(old(state), final(state), found@, ids@),
{
    let n: usize = state.features_slam.len();
    let mut k: usize = 0;
    while k < n
        invariant
            k <= n,
            n == old(state).features_slam@.len(),
            n == state.features_slam@.len(),
            n == found@.len(),
            *state == (State { features_slam: state.features_slam, ..*old(state) }),
            forall|q: int|
                0 <= q < n ==> #[trigger] state.features_slam@[q] == (if q < k {
                    marked(old(state).features_slam@[q], found@[q], ids@)
                } else {
                    old(state).features_slam@[q]
                }),
        decreases n - k,
    {
        let first = contains_id(ids, state.features_slam[k].unique_camera_id);
        if (found[k].is_none() && first) || state.features_slam[k].update_fail_count > 1 {
            state.features_slam[k].should_marg = true;
        }
        k += 1;
    }
}

/// Appends the features that are there.
fn append_present(features: &mut Vec<Feature>, found: Vec<Option<Feature>>)
    ensures
        final(features)@ == old(features)@ + present(found@, found@.len() as int),
{
    let ghost first = found@;
    let mut rest = found;
    let n: usize = rest.len();
    let mut k: usize = 0;
    assert(rest@ =~= first.skip(0));
    assert(features@ =~= old(features)@ + present(first, 0));
    while k < n
        invariant
            k <= n,
            n == first.len(),
            rest@ == first.skip(k as int),
            features@ == old(features)@ + present(first, k as int),
        decreases n - k,
    {
        let next = rest.remove(0);
        assert(rest@ =~= first.skip(k + 1));
        assert(next == first[k as int]);
        if let Some(f) = next {
            features.push(f);
        }
        assert(features@ =~= old(features)@ + present(first, k + 1));
        k += 1;
    }
}

/// Takes the features that the state does not hold out of the list.
fn split_unknown(state: &State, features: &mut Vec<Feature>) -> (unknown: Vec<Feature>)
    ensures
        final(features)@ == kept(
            old(features)@,
            known_flags(state, old(features)@),
            old(features)@.len() as int,
        ),
        unknown@ == kept(
            old(features)@,
            negated(known_flags(state, old(features)@)),
            old(features)@.len() as int,
        ),
{
    let mut keep: Vec<bool> = Vec::new();
    let mut i: usize = 0;
    while i < features.len()
        invariant
            i <= features@.len(),
            features@ == old(features)@,
            keep@ == known_flags(state, features@).take(i as int),
        decreases features@.len() - i,
    {
        let flag = find_landmark(state, features[i].featid).is_some();
        keep.push(flag);
        assert(keep@ =~= known_flags(state, features@).take(i + 1));
        i += 1;
    }
    assert(keep@ =~= known_flags(state, features@));
    split_flagged(features, &keep)
}

/// Sorts features by their numbers of measurements and keeps the `most` longest.
fn keep_longest(features: &mut Vec<Feature>, most: usize)
    requires
        forall|i: int|
            0 <= i < old(features)@.len() ==> (#[trigger] old(features)@[i]).spec_measurements()
                <= usize::MAX,
    ensures
        longest(old(features)@, final(features)@, most as int),
{
    let ghost pool = features@;
    let mut keys: Vec<i128> = Vec::new();
    let mut i: usize = 0;
    while i < features.len()
        invariant
            i <= features@.len(),
            features@ == pool,
            forall|q: int|
                0 <= q < pool.len() ==> (#[trigger] pool[q]).spec_measurements() <= usize::MAX,
            keys@.len() == i,
            forall|q: int| 0 <= q < i ==> #[trigger] keys@[q] == pool[q].spec_measurements(),
        decreases features@.len() - i,
    {
        let n: usize = features[i].measurements();
        keys.push(n as i128);
        i += 1;
    }
    assert(key_values(keys@) =~= lengths(pool));
    sort_by_keys(features, &mut keys);
    let ghost order = choose|order: Seq<int>|
        stable_order(lengths(pool), order) && features@ == #[trigger] arranged(pool, order);
    let total: usize = features.len();
    if total > most {
        let tail = features.split_off(total - most);
        *features = tail;
    }
    assert(features@ =~= last_of(arranged(pool, order), most as int));
}

/// A list of at most `max` features from each place on that is a multiple of
/// `max`; together they are the whole list.
pub open spec fn batched(batches: Seq<Vec<Feature>>, features: Seq<Feature>, max: int) -> bool {
    &&& batches.len() == (features.len() + max - 1) / max
    &&& forall|k: int|
        0 <= k < batches.len() ==> (#[trigger] batches[k])@ == features.subrange(
            k * max,
            if (k + 1) * max < features.len() {
                (k + 1) * max
            } else {
                features.len() as int
            },
        )
}

/// Cuts a list of features into batches of `max`; the last may be shorter.
pub fn slam_batches(features: Vec<Feature>, max: usize) -> (batches: Vec<Vec<Feature>>)
    requires
        max > 0,
    ensures
        batched(batches@, features@, max as int),
{
    let ghost all = features@;
    let mut rest = features;
    let mut batches: Vec<Vec<Feature>> = Vec::new();
    assert(rest@ =~= all.skip(0));
    assert(batches@.len() * max == 0) by (nonlinear_arith)
        requires
            batches@.len() == 0,
    ;
    while rest.len() > 0
        invariant
            max > 0,
            batches@.len() * max <= all.len() + max - 1,
            rest@ == all.skip(
                if batches@.len() * max < all.len() {
                    batches@.len() * max
                } else {
                    all.len() as int
                },
            ),
            forall|k: int|
                0 <= k < batches@.len() ==> (#[trigger] batches@[k])@ == all.subrange(
                    k * max,
                    if (k + 1) * max < all.len() {
                        (k + 1) * max
                    } else {
                        all.len() as int
                    },
                ),
        decreases rest@.len(),
    {
        let n: usize = rest.len();
        let take: usize = if max < n {
            max
        } else {
            n
        };
        let tail = rest.split_off(take);
        let ghost at = batches@.len() as int;
        proof {
            assert((at + 1) * max == at * max + max) by (nonlinear_arith);
            assert(tail@ =~= all.skip(at * max + take));
            assert(rest@ =~= all.subrange(at * max, at * max + take));
        }
        batches.push(rest);
        rest = tail;
    }
    proof {
        let b = batches@.len() as int;
        let n = all.len() as int;
        assert(n <= b * max);
        assert(b == (n + max - 1) / (max as int)) by (nonlinear_arith)
            requires
                n <= b * max,
                b * max <= n + max - 1,
                max > 0,
        ;
    }
    batches
}

impl VioManager {
    /// Chooses the features of an image update. `lost` are no longer tracked,
    /// `marg` were seen by the clone that leaves next; `found` holds the tracks
    /// of the state's features, in their order. `elapsed` is the time since the
    /// start. State features that lost their track leave the state.
    pub fn select_features(
        &mut self,
        lost: Vec<Feature>,
        marg: Vec<Feature>,
        found: Vec<Option<Feature>>,
        sensor_ids: &Vec<i32>,
        elapsed: Double,
    ) -> (chosen: Selection)
        requires
            old(self).wf(),
            old(self).state.dim() * old(self).state.dim() <= usize::MAX,
            found@.len() == old(self).state.features_slam@.len(),
            forall|i: int|
                0 <= i < lost@.len() ==> (#[trigger] lost@[i]).spec_measurements() <= usize::MAX,
            forall|i: int|
                0 <= i < marg@.len() ==> (#[trigger] marg@[i]).spec_measurements() <= usize::MAX,
        ensures
            final(self).wf(),
            *final(self) == (VioManager { state: final(self).state, ..*old(self) }),
            exists|mid: State, rows: Seq<int>, left: Seq<int>|
                features_marked(&old(self).state, &mid, found@, sensor_ids@)
                    && #[trigger] features_marginalized(&mid, &final(self).state, rows, left),
            ({
                let o = old(self).state.options;
                let used = kept(
                    lost@,
                    lost_flags(lost@, marg@, sensor_ids@),
                    lost@.len() as int,
                );
                let short = kept(
                    marg@,
                    short_flags(marg@, o.max_clone_size),
                    marg@.len() as int,
                );
                let long = kept(
                    marg@,
                    negated(short_flags(marg@, o.max_clone_size)),
                    marg@.len() as int,
                );
                let new = admitted(
                    o,
                    old(self).state.features_slam@.len() as int,
                    long.len() as int,
                    old(self).params.dt_slam_delay,
                    elapsed,
                );
                let slam = state_candidates(long, found@, new);
                let known = known_flags(&final(self).state, slam);
                &&& longest(
                    window_pool(used, short, long, new),
                    chosen.msckf@,
                    o.max_msckf_in_update as int,
                )
                &&& chosen.slam_update@ == kept(slam, known, slam.len() as int)
                &&& chosen.slam_delayed@ == kept(slam, negated(known), slam.len() as int)
            }),
    {
        let mut used = lost;
        let mut short = marg;
        retain_lost(&mut used, &short, sensor_ids);
        let mut long = split_long(&mut short, self.state.options.max_clone_size);
        let most: usize = self.state.options.max_slam_features;
        let known: usize = self.state.features_slam.len();
        let mut new: usize = 0;
        if most > 0 && self.params.dt_slam_delay.le(elapsed) && known < most {
            new = if most - known < long.len() {
                most - known
            } else {
                long.len()
            };
        }
        let ghost all_long = long@;
        let at: usize = long.len() - new;
        let mut slam = long.split_off(at);
        mark_features(&mut self.state, &found, sensor_ids);
        let ghost mid = self.state;
        proof {
            lemma_marked_wf(&old(self).state, &mid, found@, sensor_ids@);
        }
        append_present(&mut slam, found);
        assert(slam@ =~= state_candidates(all_long, found@, new as int));
        marginalize_slam(&mut self.state);
        proof {
            let (rows, left) = choose|rows: Seq<int>, left: Seq<int>| #[trigger]
                features_marginalized(&mid, &self.state, rows, left);
            assert(features_marginalized(&mid, &self.state, rows, left));
        }
        let delayed = split_unknown(&self.state, &mut slam);
        proof {
            lemma_kept_from(lost@, lost_flags(lost@, marg@, sensor_ids@), lost@.len() as int);
            lemma_kept_from(
                marg@,
                short_flags(marg@, self.state.options.max_clone_size),
                marg@.len() as int,
            );
            lemma_kept_from(
                marg@,
                negated(short_flags(marg@, self.state.options.max_clone_size)),
                marg@.len() as int,
            );
        }
        let ghost pool = window_pool(used@, short@, all_long, new as int);
        used.append(&mut short);
        used.append(&mut long);
        assert(used@ =~= pool);
        assert forall|i: int| 0 <= i < used@.len() implies (#[trigger] used@[i]).spec_measurements()
            <= usize::MAX by {
            lemma_pool_bounded(
                kept(lost@, lost_flags(lost@, marg@, sensor_ids@), lost@.len() as int),
                kept(
                    marg@,
                    short_flags(marg@, self.state.options.max_clone_size),
                    marg@.len() as int,
                ),
                all_long,
                new as int,
                lost@,
                marg@,
                i,
            );
        }
        keep_longest(&mut used, self.state.options.max_msckf_in_update);
        Selection { msckf: used, slam_update: slam, slam_delayed: delayed }
    }
}

/// Every kept item is one of the list.
proof fn lemma_kept_from<T>(items: Seq<T>, keep: Seq<bool>, n: int)
    requires
        0 <= n <= items.len(),
    ensures
        kept(items, keep, n).len() <= n,
        forall|i: int|
            0 <= i < kept(items, keep, n).len() ==> items.contains(#[trigger] kept(items, keep, n)[i]),
    decreases n,
{
    if n > 0 {
        lemma_kept_from(items, keep, n - 1);
    }
}

/// The features for the window are among those that were given.
proof fn lemma_pool_bounded(
    used: Seq<Feature>,
    short: Seq<Feature>,
    long: Seq<Feature>,
    new: int,
    lost: Seq<Feature>,
    marg: Seq<Feature>,
    i: int,
)
    requires
        0 <= new <= long.len(),
        0 <= i < window_pool(used, short, long, new).len(),
        forall|k: int| 0 <= k < used.len() ==> lost.contains(#[trigger] used[k]),
        forall|k: int| 0 <= k < short.len() ==> marg.contains(#[trigger] short[k]),
        forall|k: int| 0 <= k < long.len() ==> marg.contains(#[trigger] long[k]),
        forall|k: int|
            0 <= k < lost.len() ==> (#[trigger] lost[k]).spec_measurements() <= usize::MAX,
        forall|k: int|
            0 <= k < marg.len() ==> (#[trigger] marg[k]).spec_measurements() <= usize::MAX,
    ensures
        window_pool(used, short, long, new)[i].spec_measurements() <= usize::MAX,
{
    let f = window_pool(used, short, long, new)[i];
    if i < used.len() {
        assert(lost.contains(used[i]));
    } else if i < used.len() + short.len() {
        assert(marg.contains(short[i - used.len()]));
    } else {
        assert(marg.contains(long[i - used.len() - short.len()]));
    }
}

/// Marking features keeps the state in order.
proof fn lemma_marked_wf(
    before: &State,
    after: &State,
    found: Seq<Option<Feature>>,
    ids: Seq<i32>,
)
    requires
        before.wf(),
        features_marked(before, after, found, ids),
    ensures
        after.wf(),
        after.dim() == before.dim(),
{
    crate::vio::state_helper::lemma_feature_runs(
        before.features_slam@,
        before.features_slam@.len() as int,
    );
    crate::vio::state_helper::lemma_feature_runs(
        after.features_slam@,
        before.features_slam@.len() as int,
    );
    assert(after.runs() =~= before.runs());
}

/// How many of the first `k` features are to leave.
pub open spec fn leaving(features: Seq<Landmark>, k: int) -> int
    decreases k,
{
    if k <= 0 {
        0
    } else {
        leaving(features, k - 1) + (if features[k - 1].should_marg {
            1int
        } else {
            0
        })
    }
}

/// An ascending list of features that stay, and those that leave, are no more
/// than all.
proof fn lemma_stay_and_leave(features: Seq<Landmark>, stay: Seq<int>, k: int)
    requires
        0 <= k <= features.len(),
        forall|i: int| 0 <= i < stay.len() ==> 0 <= #[trigger] stay[i] < k,
        forall|i: int, j: int| 0 <= i < j < stay.len() ==> #[trigger] stay[i] < #[trigger] stay[j],
        forall|i: int| 0 <= i < stay.len() ==> !features[#[trigger] stay[i]].should_marg,
    ensures
        stay.len() + leaving(features, k) <= k,
    decreases k,
{
    if k == 0 {
        if stay.len() > 0 {
            assert(stay[0] < 0);
        }
    } else if stay.len() > 0 && stay.last() == k - 1 {
        let rest = stay.drop_last();
        assert forall|i: int| 0 <= i < rest.len() implies 0 <= #[trigger] rest[i] < k - 1 by {
            assert(stay[i] < stay[stay.len() - 1]);
        }
        lemma_stay_and_leave(features, rest, k - 1);
    } else {
        assert forall|i: int| 0 <= i < stay.len() implies 0 <= #[trigger] stay[i] < k - 1 by {
            if i < stay.len() - 1 {
                assert(stay[i] < stay[stay.len() - 1]);
            }
        }
        lemma_stay_and_leave(features, stay, k - 1);
    }
}

/// Of the tracks of state features, no more are unknown than features left.
proof fn lemma_unknown_left(
    mid: &State,
    after: &State,
    rows: Seq<int>,
    left: Seq<int>,
    found: Seq<Option<Feature>>,
    k: int,
)
    requires
        features_marginalized(mid, after, rows, left),
        found.len() == mid.features_slam@.len(),
        forall|q: int|
            0 <= q < found.len() ==> (#[trigger] found[q] matches Some(f) ==> f.featid
                == mid.features_slam@[q].featid),
        0 <= k <= found.len(),
    ensures
        kept(
            present(found, k),
            negated(known_flags(after, present(found, k))),
            present(found, k).len() as int,
        ).len() <= leaving(mid.features_slam@, k),
    decreases k,
{
    if k > 0 {
        lemma_unknown_left(mid, after, rows, left, found, k - 1);
        let head = present(found, k - 1);
        let all = present(found, k);
        let n = head.len() as int;
        lemma_kept_prefix(
            head,
            negated(known_flags(after, head)),
            all,
            negated(known_flags(after, all)),
            n,
        );
        if found[k - 1] is Some && !mid.features_slam@[k - 1].should_marg {
            reveal(features_survive);
            assert(left.contains(k - 1));
            let w = choose|w: int| 0 <= w < left.len() && left[w] == k - 1;
            assert(after.features_slam@[w].featid == mid.features_slam@[left[w]].featid);
            assert(feature_known(after, all[n].featid));
        }
    }
}

/// What is kept of the first `n` items depends on them alone.
proof fn lemma_kept_prefix<T>(a: Seq<T>, keep_a: Seq<bool>, b: Seq<T>, keep_b: Seq<bool>, n: int)
    requires
        0 <= n <= a.len(),
        n <= b.len(),
        forall|i: int| 0 <= i < n ==> #[trigger] a[i] == b[i],
        forall|i: int| 0 <= i < n ==> #[trigger] keep_a[i] == keep_b[i],
    ensures
        kept(a, keep_a, n) == kept(b, keep_b, n),
    decreases n,
{
    if n > 0 {
        lemma_kept_prefix(a, keep_a, b, keep_b, n - 1);
    }
}

/// Of a list in two parts, no more is kept than the first part and what is kept
/// of the second.
proof fn lemma_kept_parts<T>(
    a: Seq<T>,
    b: Seq<T>,
    keep: Seq<bool>,
    keep_b: Seq<bool>,
    n: int,
)
    requires
        0 <= n <= b.len(),
        forall|i: int| 0 <= i < b.len() ==> #[trigger] keep_b[i] == keep[a.len() + i],
    ensures
        kept(a + b, keep, a.len() + n).len() <= a.len() + kept(b, keep_b, n).len(),
    decreases n,
{
    if n > 0 {
        lemma_kept_parts(a, b, keep, keep_b, n - 1);
        assert((a + b)[a.len() + n - 1] == b[n - 1]);
        assert(keep_b[n - 1] == keep[a.len() + n - 1]);
    } else {
        lemma_kept_from(a + b, keep, a.len() as int);
    }
}

/// A state within its limit stays there: even if every chosen feature enters, it
/// holds no more than the options allow.
pub proof fn law_state_features_bounded(
    before: &State,
    mid: &State,
    after: &State,
    rows: Seq<int>,
    left: Seq<int>,
    found: Seq<Option<Feature>>,
    ids: Seq<i32>,
    long: Seq<Feature>,
    delay: Double,
    elapsed: Double,
)
    requires
        before.features_slam@.len() <= before.options.max_slam_features,
        found.len() == before.features_slam@.len(),
        forall|q: int|
            0 <= q < found.len() ==> (#[trigger] found[q] matches Some(f) ==> f.featid
                == before.features_slam@[q].featid),
        features_marked(before, mid, found, ids),
        features_marginalized(mid, after, rows, left),
    ensures
        ({
            let new = admitted(
                before.options,
                before.features_slam@.len() as int,
                long.len() as int,
                delay,
                elapsed,
            );
            let slam = state_candidates(long, found, new);
            after.features_slam@.len() + kept(
                slam,
                negated(known_flags(after, slam)),
                slam.len() as int,
            ).len() <= before.options.max_slam_features
        }),
{
    reveal(features_survive);
    let n = before.features_slam@.len() as int;
    let new = admitted(before.options, n, long.len() as int, delay, elapsed);
    let head = long.skip(long.len() - new);
    let tail = present(found, n);
    let slam = head + tail;
    assert forall|q: int| 0 <= q < n implies (#[trigger] found[q] matches Some(f) ==> f.featid
        == mid.features_slam@[q].featid) by {
        assert(mid.features_slam@[q].featid == before.features_slam@[q].featid);
    }
    lemma_unknown_left(mid, after, rows, left, found, n);
    assert forall|i: int| 0 <= i < left.len() implies !mid.features_slam@[#[trigger] left[i]].should_marg by {
        assert(left.contains(left[i]));
    }
    lemma_stay_and_leave(mid.features_slam@, left, n);
    lemma_kept_parts(
        head,
        tail,
        negated(known_flags(after, slam)),
        negated(known_flags(after, tail)),
        tail.len() as int,
    );
}

/// No image update uses more window features than the options allow.
pub proof fn law_window_features_bounded(pool: Seq<Feature>, chosen: Seq<Feature>, most: int)
    requires
        0 <= most,
        longest(pool, chosen, most),
    ensures
        chosen.len() <= most,
        chosen.len() == pool.len() || chosen.len() == most,
{
}

/// Over a whole image update the window and the features of the state stay within
/// their limits and time does not fall. The update propagates, unless the state is at
/// the image or readings are missing, and ends there if it does not go on. Else it
/// selects features, updates with them in steps that leave the window and the number of
/// features as they are, lets features enter, and lets the oldest clone go if there is
/// one too many.
pub proof fn law_image_update_keeps_bounds<
    F: Fn(ImuCalibration, ImuReading, ImuReading, InertialValues, InertialValues) -> Prediction,
    P: Fn(Double, Double) -> Double,
    T: Fn(Double, Double) -> Double,
>(
    start: &VioManager,
    moved: &VioManager,
    timestamp: Double,
    cov: Matrix,
    c: ImuCalibration,
    run: Seq<Prediction>,
    readings: Seq<ImuReading>,
    predict: F,
    plus: P,
    times: T,
    mid: &State,
    selected: &State,
    rows: Seq<int>,
    left: Seq<int>,
    found: Seq<Option<Feature>>,
    ids: Seq<i32>,
    long: Seq<Feature>,
    elapsed: Double,
    updated: &State,
    entered: &State,
    new: int,
    anchored: &State,
    after: &State,
)
    requires
        start.state.clones_imu@.len() <= start.state.options.max_clone_size,
        start.state.features_slam@.len() <= start.state.options.max_slam_features,
        !timestamp.spec_lt(start.state.timestamp),
        (start.state.timestamp == timestamp && *moved == *start) || (start.state.timestamp
            != timestamp && (*moved == *start || propagated(
            start,
            moved,
            &cov,
            c,
            run,
            readings,
            timestamp,
            true,
            predict,
            plus,
            times,
        ))),
        found.len() == moved.state.features_slam@.len(),
        forall|q: int|
            0 <= q < found.len() ==> (#[trigger] found[q] matches Some(f) ==> f.featid
                == moved.state.features_slam@[q].featid),
        features_marked(&moved.state, mid, found, ids),
        features_marginalized(mid, selected, rows, left),
        same_window(selected, updated),
        updated.features_slam@.len() == selected.features_slam@.len(),
        same_window(updated, entered),
        new <= delayed_of(start, selected, found, long, elapsed).len(),
        entered.features_slam@.len() == updated.features_slam@.len() + new,
        same_window(entered, anchored),
        anchored.features_slam@.len() == entered.features_slam@.len(),
        anchored.clones_imu@.len() <= anchored.options.max_clone_size ==> *after == *anchored,
        anchored.clones_imu@.len() > anchored.options.max_clone_size ==> window_slid(
            anchored,
            after,
        ),
    ensures
        !goes_on(&moved.state, timestamp) ==> {
            &&& moved.state.clones_imu@.len() <= start.state.options.max_clone_size
            &&& moved.state.features_slam@.len() <= start.state.options.max_slam_features
            &&& !moved.state.timestamp.spec_lt(start.state.timestamp)
        },
        after.clones_imu@.len() <= start.state.options.max_clone_size,
        after.features_slam@.len() <= start.state.options.max_slam_features,
        !after.timestamp.spec_lt(start.state.timestamp),
{
    law_state_features_bounded(
        &moved.state,
        mid,
        selected,
        rows,
        left,
        found,
        ids,
        long,
        start.params.dt_slam_delay,
        elapsed,
    );
    law_window_stays_bounded(anchored, after);
}

/// The features that an image update lets enter, of those tracked for long.
pub open spec fn delayed_of(
    start: &VioManager,
    selected: &State,
    found: Seq<Option<Feature>>,
    long: Seq<Feature>,
    elapsed: Double,
) -> Seq<Feature> {
    let new = admitted(
        start.state.options,
        start.state.features_slam@.len() as int,
        long.len() as int,
        start.params.dt_slam_delay,
        elapsed,
    );
    let slam = state_candidates(long, found, new);
    kept(slam, negated(known_flags(selected, slam)), slam.len() as int)
}

/// A landmark that is tracked stays, and one that was lost goes: what was found in the
/// image, was not marked before and has not failed more than one update is in the
/// state after the selection, as it was but for its place; what was marked before, has
/// failed twice, or belongs to a camera of the image that no longer finds it, is not.
/// What a camera outside the image has seen stays although nothing was found of it.
pub proof fn law_tracks_decide_who_stays(
    before: &State,
    mid: &State,
    after: &State,
    rows: Seq<int>,
    left: Seq<int>,
    found: Seq<Option<Feature>>,
    ids: Seq<i32>,
    q: int,
)
    requires
        0 <= q < before.features_slam@.len(),
        found.len() == before.features_slam@.len(),
        features_marked(before, mid, found, ids),
        features_marginalized(mid, after, rows, left),
    ensures
        ({
            let l = before.features_slam@[q];
            let fine = !l.should_marg && l.update_fail_count <= 1;
            &&& found[q] is Some && fine ==> feature_known(after, l.featid)
            &&& !ids.contains(l.unique_camera_id) && fine ==> feature_known(after, l.featid)
            &&& found[q] is Some && fine ==> exists|k: int|
                0 <= k < after.features_slam@.len() && #[trigger] after.features_slam@[k] == (
                Landmark { id: after.features_slam@[k].id, ..l })
            &&& numbers_differ(before) && found[q] is None && ids.contains(l.unique_camera_id)
                ==> !feature_known(after, l.featid)
            &&& numbers_differ(before) && !fine ==> !feature_known(after, l.featid)
        }),
{
    reveal(features_survive);
    let l = before.features_slam@[q];
    let m = mid.features_slam@[q];
    assert(m.featid == l.featid);
    if left.contains(q) {
        let k = choose|k: int| 0 <= k < left.len() && left[k] == q;
        assert(after.features_slam@[k] == (Landmark { id: after.features_slam@[k].id, ..m }));
        assert(after.features_slam@[k].featid == l.featid);
        assert(feature_known(after, l.featid));
        if !l.should_marg {
            assert(after.features_slam@[k] == (Landmark { id: after.features_slam@[k].id, ..l }));
        }
    } else if numbers_differ(before) && feature_known(after, l.featid) {
        let k = choose|k: int|
            0 <= k < after.features_slam@.len() && (#[trigger] after.features_slam@[k]).featid
                == l.featid;
        let p = left[k];
        assert(left.contains(p));
        assert(mid.features_slam@[p].featid == before.features_slam@[p].featid);
        assert(before.features_slam@[p].featid == l.featid);
        if p < q {
            assert(before.features_slam@[p].featid != before.features_slam@[q].featid);
        } else {
            assert(before.features_slam@[q].featid != before.features_slam@[p].featid);
        }
    }
}

/// Whether the landmarks of a state have numbers that differ.
pub open spec fn numbers_differ(st: &State) -> bool {
    forall|a: int, b: int|
        0 <= a < b < st.features_slam@.len() ==> (#[trigger] st.features_slam@[a]).featid != (
        #[trigger] st.features_slam@[b]).featid
}

} // verus!
