//! Which matches a pose rests on.

use vstd::prelude::*;

use crate::vision_match::pose::{
    answers, explained_pairs, picked, places, Attempt, PoseError, VisualPose, PRIOR_SUBSET_PX,
};
use crate::double::Double;

verus! {

/// The places that agree are places of the matches, in the order in which they are given.
proof fn lemma_places_in_range(inliers: Seq<i32>, total: int, n: int)
    requires
        0 <= n <= inliers.len(),
    ensures
        places(inliers, total, n).len() <= n,
        forall|k: int|
            0 <= k < places(inliers, total, n).len() ==> 0 <= #[trigger] places(inliers, total, n)[k]
                < total,
        (forall|k: int| 0 <= k < n ==> 0 <= #[trigger] inliers[k] < total) ==> places(
            inliers,
            total,
            n,
        ).len() == n && forall|k: int|
            0 <= k < n ==> #[trigger] places(inliers, total, n)[k] == inliers[k],
    decreases n,
{
    if n > 0 {
        lemma_places_in_range(inliers, total, n - 1);
    }
}

/// A solution is refined and gauged by matches that were given to the solver and no
/// others, and by all that agree where each of them names a given match.
pub proof fn law_poses_rest_on_given_matches(given: Seq<usize>, inliers: Seq<i32>, k: int)
    ensures
        ({
            let list = picked(given, places(inliers, given.len() as int, inliers.len() as int));
            &&& 0 <= k < list.len() ==> given.contains(list[k])
            &&& (forall|i: int| 0 <= i < inliers.len() ==> 0 <= #[trigger] inliers[i] < given.len())
                ==> list.len() == inliers.len()
            &&& (forall|i: int| 0 <= i < inliers.len() ==> 0 <= #[trigger] inliers[i] < given.len())
                && 0 <= k < inliers.len() ==> list[k] == given[inliers[k] as int]
        }),
{
    let total = given.len() as int;
    let n = inliers.len() as int;
    lemma_places_in_range(inliers, total, n);
    let at = places(inliers, total, n);
    if 0 <= k < at.len() {
        assert(0 <= at[k] < total);
        assert(picked(given, at)[k] == given[at[k] as int]);
    }
}

/// A match is explained by the prior exactly if its projection is there and no farther
/// than the limit.
pub proof fn law_explained_matches_are_listed(errors: Seq<Option<Double>>, n: int, i: usize)
    requires
        0 <= n <= errors.len(),
        n <= usize::MAX,
    ensures
        explained_pairs(errors, n).contains(i) <==> i < n && (errors[i as int] matches Some(e)
            && e.spec_le(Double { bits: PRIOR_SUBSET_PX })),
    decreases n,
{
    if n > 0 {
        law_explained_matches_are_listed(errors, n - 1, i);
        let less = explained_pairs(errors, n - 1);
        let all = explained_pairs(errors, n);
        if all.len() > less.len() {
            if less.contains(i) {
                let k = choose|k: int| 0 <= k < less.len() && less[k] == i;
                assert(all[k] == i);
            }
            if i == n - 1 {
                assert(all[less.len() as int] == i);
            }
            if all.contains(i) {
                let k = choose|k: int| 0 <= k < all.len() && all[k] == i;
                if k < less.len() {
                    assert(less[k] == i);
                }
            }
        }
    }
}

/// An answer tells the count of matches that the solver found to agree, and where no
/// agreement is found there is no pose.
pub proof fn law_answers_tell_the_agreement(
    res: Result<Option<VisualPose>, PoseError>,
    a: Attempt,
    total: usize,
)
    requires
        answers(res, a, total),
    ensures
        a is NoConsensus ==> res matches Ok(None),
        a is Failed ==> res is Err,
        res matches Ok(Some(pose)) ==> (a matches Attempt::Found(fit) && pose.num_inliers
            == fit.num_inliers && pose.total == total && fit.believed()),
        a matches Attempt::Found(fit) ==> (fit.to_prior is None ==> res matches Ok(Some(_))),
{
}

} // verus!
