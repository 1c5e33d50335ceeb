//! Guesses of the pose after tracking was lost.

use vstd::prelude::*;

use crate::double::Double;
use crate::void_measure::options::RelocalizeOptions;
use crate::sorting::{arranged, key_values, sort_by_keys, stable_order};

verus! {

/// The step between two states of the generator.
pub const GOLDEN_GAMMA: u64 = 0x9E37_79B9_7F4A_7C15;

/// The first multiplier of the output mix.
pub const MIX_FIRST: u64 = 0xBF58_476D_1CE4_E5B9;

/// The second multiplier of the output mix.
pub const MIX_SECOND: u64 = 0x94D0_49BB_1331_11EB;

/// A deterministic generator of pseudo-random numbers.
#[derive(Clone, Copy, Debug, PartialEq, Eq, Structural)]
pub struct SplitMix64(pub u64);

/// The number that a generator in the given state hands out.
pub open spec fn mixed(state: u64) -> u64 {
    let a = (state ^ (state >> 30)).wrapping_mul(MIX_FIRST);
    let b = (a ^ (a >> 27)).wrapping_mul(MIX_SECOND);
    b ^ (b >> 31)
}

/// The state after a step from the given state.
pub open spec fn stepped(state: u64) -> u64 {
    state.wrapping_add(GOLDEN_GAMMA)
}

impl SplitMix64 {
    /// Steps the generator and hands out a number.
    pub fn next(&mut self) -> (n: u64)
        ensures
            final(self).0 == stepped(old(self).0),
            n == mixed(stepped(old(self).0)),
    {
        self.0 = self.0.wrapping_add(GOLDEN_GAMMA);
        let z: u64 = self.0;
        let a: u64 = (z ^ (z >> 30)).wrapping_mul(MIX_FIRST);
        let b: u64 = (a ^ (a >> 27)).wrapping_mul(MIX_SECOND);
        b ^ (b >> 31)
    }
}

/// Generators in different states stay in different states.
pub proof fn law_steps_stay_apart(a: u64, b: u64)
    requires
        a != b,
    ensures
        stepped(a) != stepped(b),
{
}

/// Multiplying by an odd number with the given inverse loses nothing.
proof fn lemma_odd_multiple(a: u64, b: u64, c: u64, inverse: int, turns: int)
    requires
        a.wrapping_mul(c) == b.wrapping_mul(c),
        c * inverse == 1 + 0x1_0000_0000_0000_0000 * turns,
    ensures
        a == b,
{
    let m: int = 0x1_0000_0000_0000_0000;
    let x = a * c;
    let y = b * c;
    assert(x % m == y % m);
    vstd::arithmetic::div_mod::lemma_fundamental_div_mod(x, m);
    vstd::arithmetic::div_mod::lemma_fundamental_div_mod(y, m);
    let q = x / m - y / m;
    let gap = a as int - b as int;
    assert(gap * c == m * q) by (nonlinear_arith)
        requires
            gap == a as int - b as int,
            x == a * c,
            y == b * c,
            x == m * (x / m) + x % m,
            y == m * (y / m) + y % m,
            x % m == y % m,
            q == x / m - y / m,
    ;
    let k = q * inverse - gap * turns;
    assert(gap == m * k) by (nonlinear_arith)
        requires
            gap * c == m * q,
            c * inverse == 1 + m * turns,
            k == q * inverse - gap * turns,
    ;
    assert(k == 0) by (nonlinear_arith)
        requires
            gap == m * k,
            -m < gap < m,
            m > 0,
    ;
}

/// Generators in different states hand out different numbers.
pub proof fn law_numbers_of_states_differ(a: u64, b: u64)
    requires
        a != b,
    ensures
        mixed(a) != mixed(b),
{
    let (a0, b0) = (a ^ (a >> 30), b ^ (b >> 30));
    let (a1, b1) = (a0.wrapping_mul(MIX_FIRST), b0.wrapping_mul(MIX_FIRST));
    let (a2, b2) = (a1 ^ (a1 >> 27), b1 ^ (b1 >> 27));
    let (a3, b3) = (a2.wrapping_mul(MIX_SECOND), b2.wrapping_mul(MIX_SECOND));
    if mixed(a) == mixed(b) {
        assert(a3 ^ (a3 >> 31) == b3 ^ (b3 >> 31) ==> a3 == b3) by (bit_vector);
        lemma_odd_multiple(a2, b2, MIX_SECOND, 0x319642b2d24d8ec3, 0x1cd336eda85f1453);
        assert(a1 ^ (a1 >> 27) == b1 ^ (b1 >> 27) ==> a1 == b1) by (bit_vector);
        lemma_odd_multiple(a0, b0, MIX_FIRST, 0x96de1b173f119089, 0x70c3bca78f27f46c);
        assert(a ^ (a >> 30) == b ^ (b >> 30) ==> a == b) by (bit_vector);
    }
}

/// A pose that was aligned, and the sum of its squared residuals.
#[derive(Clone, Copy, Debug)]
pub struct Guess {
    /// The sum of the squared residuals.
    pub error: Double,
    /// The pose: unit quaternion, real part last, and translation.
    pub pose: [Double; 7],
}

/// The places of the errors in the order of all numbers.
pub open spec fn error_ranks(guesses: Seq<Guess>) -> Seq<int> {
    Seq::new(guesses.len(), |i: int| guesses[i].error.rank())
}

/// The numbers that a perturbation is drawn from: two for each of six normal
/// deviates, each of fifty-three bits.
pub type Draws = [u64; 12];

/// The state of a generator after `n` steps.
pub open spec fn stepped_by(state: u64, n: int) -> u64
    decreases n,
{
    if n <= 0 {
        state
    } else {
        stepped(stepped_by(state, n - 1))
    }
}

/// The fifty-three bits that a generator hands out with step `n`.
pub open spec fn drawn(state: u64, n: int) -> u64 {
    mixed(stepped_by(state, n)) >> 11
}

/// The numbers of the perturbation that a generator in the given state makes.
pub open spec fn perturbation(state: u64) -> Seq<u64> {
    Seq::new(12, |i: int| drawn(state, i + 1))
}

/// Draws the numbers of a perturbation.
fn draw(rng: &mut SplitMix64) -> (d: Draws)
    ensures
        d@ == perturbation(old(rng).0),
        final(rng).0 == stepped_by(old(rng).0, 12),
{
    let mut d: Draws = [0, 0, 0, 0, 0, 0, 0, 0, 0, 0, 0, 0];
    let mut i: usize = 0;
    while i < 12
        invariant
            i <= 12,
            rng.0 == stepped_by(old(rng).0, i as int),
            forall|k: int| 0 <= k < i ==> #[trigger] d@[k] == drawn(old(rng).0, k + 1),
        decreases 12 - i,
    {
        let n: u64 = rng.next() >> 11;
        d[i] = n;
        i += 1;
    }
    assert(d@ =~= perturbation(old(rng).0));
    d
}

/// Whether a guess can be aligned, always in the same way; without numbers it is
/// not perturbed.
pub open spec fn aligns<A: Fn(Option<Draws>) -> Guess>(align: A) -> bool {
    &&& forall|d: Option<Draws>| #[trigger] call_requires(align, (d,))
    &&& forall|d: Option<Draws>, a: Guess, b: Guess| #[trigger]
        call_ensures(align, (d,), a) && #[trigger] call_ensures(align, (d,), b) ==> a == b
}

/// The numbers as an array.
pub open spec fn as_draws(s: Seq<u64>) -> Draws {
    choose|d: Draws| d@ == s
}

/// The aligned guess.
pub open spec fn aligned<A: Fn(Option<Draws>) -> Guess>(align: A, d: Option<Draws>) -> Guess {
    choose|r: Guess| call_ensures(align, (d,), r)
}

/// The first `n` guesses: one without perturbation, then perturbed ones.
pub open spec fn guessed<A: Fn(Option<Draws>) -> Guess>(align: A, n: int) -> Seq<Guess> {
    Seq::new(
        n as nat,
        |i: int|
            if i == 0 {
                aligned(align, None)
            } else {
                aligned(
                    align,
                    Some(as_draws(perturbation(stepped_by(GOLDEN_GAMMA, 12 * (i - 1))))),
                )
            },
    )
}

/// How many guesses are made.
pub open spec fn guess_count(opts: &RelocalizeOptions) -> int {
    if opts.n_candidates == 0 {
        1
    } else {
        opts.n_candidates as int
    }
}

/// Aligns guesses of the pose, the first without perturbation, and sorts them by
/// their errors, the least first; equal ones keep their order.
pub fn relocalize_guess<A: Fn(Option<Draws>) -> Guess>(opts: &RelocalizeOptions, align: &A) -> (guesses:
    Vec<Guess>)
    requires
        aligns(*align),
    ensures
        exists|order: Seq<int>|
            stable_order(error_ranks(guessed(*align, guess_count(opts))), order) && guesses@
                == #[trigger] arranged(guessed(*align, guess_count(opts)), order),
{
    let mut rng = SplitMix64(GOLDEN_GAMMA);
    let mut guesses: Vec<Guess> = Vec::new();
    let first = align(None);
    assert(call_ensures(*align, (None,), first));
    assert(call_ensures(*align, (None,), aligned(*align, None)));
    guesses.push(first);
    let mut i: usize = 1;
    while i < opts.n_candidates
        invariant
            1 <= i,
            i <= opts.n_candidates || i == 1,
            aligns(*align),
            rng.0 == stepped_by(GOLDEN_GAMMA, 12 * (i - 1)),
            guesses@ == guessed(*align, i as int),
        decreases opts.n_candidates - i,
    {
        let d = draw(&mut rng);
        let g = align(Some(d));
        proof {
            assert(call_ensures(*align, (Some(d),), g));
            assert(call_ensures(*align, (Some(d),), aligned(*align, Some(d))));
            let s = perturbation(stepped_by(GOLDEN_GAMMA, 12 * (i - 1)));
            assert(d@ == s);
            assert(as_draws(s)@ == s);
            assert(as_draws(s) =~= d);
            lemma_steps_add(GOLDEN_GAMMA, 12 * (i - 1), 12);
        }
        guesses.push(g);
        assert(guesses@ =~= guessed(*align, i + 1));
        i += 1;
    }
    let ghost all = guesses@;
    assert(all == guessed(*align, guess_count(opts)));
    let mut keys: Vec<i128> = Vec::new();
    let mut k: usize = 0;
    while k < guesses.len()
        invariant
            k <= guesses@.len(),
            keys@.len() == k,
            forall|j: int| 0 <= j < k ==> #[trigger] keys@[j] == guesses@[j].error.rank(),
        decreases guesses@.len() - k,
    {
        keys.push(guesses[k].error.rank_key());
        k += 1;
    }
    let ghost values = key_values(keys@);
    assert(values =~= error_ranks(all));
    sort_by_keys(&mut guesses, &mut keys);
    proof {
        let order = choose|order: Seq<int>|
            stable_order(values, order) && guesses@ == #[trigger] arranged(all, order);
        assert(stable_order(error_ranks(all), order) && guesses@ == arranged(all, order));
    }
    guesses
}

/// Steps add up.
proof fn lemma_steps_add(state: u64, a: int, b: int)
    requires
        0 <= a,
        0 <= b,
    ensures
        stepped_by(stepped_by(state, a), b) == stepped_by(state, a + b),
    decreases b,
{
    if b > 0 {
        lemma_steps_add(state, a, b - 1);
    }
}

/// The best guess has an error that no other undercuts.
pub proof fn law_best_guess_comes_first(all: Seq<Guess>, order: Seq<int>, k: int)
    requires
        stable_order(error_ranks(all), order),
        0 <= k < all.len(),
    ensures
        !arranged(all, order)[k].error.spec_total_lt(arranged(all, order)[0].error),
{
    if k > 0 {
        assert(0 <= order[0] < all.len());
        assert(0 <= order[k] < all.len());
    }
}

/// A plane that a point may be aligned to.
#[derive(Clone, Copy, Debug, PartialEq, Eq, Structural)]
pub struct AlignCandidate {
    /// Whether it is a plane at all.
    pub is_plane: bool,
    /// The distance of the point from the center.
    pub distance: Double,
    /// The distance below which it is used.
    pub limit: Double,
}

/// The first plane, from place `i` on, whose center is near enough; the number of
/// planes if there is none.
pub open spec fn first_near(c: Seq<AlignCandidate>, i: int) -> int
    decreases c.len() - i,
{
    if i >= c.len() {
        c.len() as int
    } else if c[i].is_plane && c[i].distance.spec_lt(c[i].limit) {
        i
    } else {
        first_near(c, i + 1)
    }
}

/// The plane that a point is aligned to: the first that is near enough.
pub fn map_plane(candidates: &Vec<AlignCandidate>) -> (place: Option<usize>)
    ensures
        match place {
            Some(k) => k < candidates@.len() && k == first_near(candidates@, 0),
            None => first_near(candidates@, 0) == candidates@.len(),
        },
{
    let mut i: usize = 0;
    while i < candidates.len()
        invariant
            i <= candidates@.len(),
            first_near(candidates@, 0) == first_near(candidates@, i as int),
        decreases candidates@.len() - i,
    {
        let c = candidates[i];
        if c.is_plane && c.distance.lt(c.limit) {
            return Some(i);
        }
        i += 1;
    }
    None
}

/// The step below which an alignment has settled: 1e-6.
pub const SETTLED_STEP: u64 = 0x3EB0_C6F7_A0B5_ED8D;

/// One round of an alignment.
#[derive(Clone, Copy, Debug)]
pub struct AlignRound<X> {
    /// The sum of the squared distances before the round.
    pub total: Double,
    /// The size of the round's step.
    pub step: Double,
    /// The pose after the round.
    pub next: X,
}

/// Whether rounds can be made, always in the same way.
pub open spec fn rounds<X, I: Fn(X, bool) -> AlignRound<X>>(iterate: I) -> bool {
    &&& forall|x: X, weighted: bool| #[trigger] call_requires(iterate, (x, weighted))
    &&& forall|x: X, weighted: bool, a: AlignRound<X>, b: AlignRound<X>| #[trigger]
        call_ensures(iterate, (x, weighted), a) && #[trigger] call_ensures(iterate, (x, weighted), b)
            ==> a == b
}

/// The round from a pose, with every point weighing the same or by its distance.
pub open spec fn round_at<X, I: Fn(X, bool) -> AlignRound<X>>(iterate: I, x: X, weighted: bool) -> AlignRound<
    X,
> {
    choose|r: AlignRound<X>| call_ensures(iterate, (x, weighted), r)
}

/// The pose at which at most `n` rounds from `x` end, and whether points weigh by
/// their distance there: they do after the first round.
pub open spec fn settled<X, I: Fn(X, bool) -> AlignRound<X>>(
    iterate: I,
    x: X,
    weighted: bool,
    n: int,
) -> (X, bool)
    decreases n,
{
    if n <= 0 {
        (x, weighted)
    } else {
        let r = round_at(iterate, x, weighted);
        if r.step.spec_lt(Double { bits: SETTLED_STEP }) {
            (r.next, true)
        } else {
            settled(iterate, r.next, true, n - 1)
        }
    }
}

/// Aligns a cloud in at most `max_iterations` rounds: the sum of the squared
/// distances at the end, and the pose there.
pub fn align<X: Copy, I: Fn(X, bool) -> AlignRound<X>>(init: X, max_iterations: usize, iterate: &I) -> (
    found: (Double, X))
    requires
        rounds(*iterate),
    ensures
        ({
            let end = settled(*iterate, init, false, max_iterations as int);
            found == (round_at(*iterate, end.0, end.1).total, end.0)
        }),
{
    let mut pose = init;
    let mut weighted = false;
    let mut done: usize = 0;
    let mut arrived = false;
    let ghost end = settled(*iterate, init, false, max_iterations as int);
    while done < max_iterations && !arrived
        invariant
            done <= max_iterations,
            rounds(*iterate),
            arrived ==> end == (pose, weighted),
            !arrived ==> end == settled(*iterate, pose, weighted, max_iterations - done),
        decreases max_iterations - done,
    {
        let r = iterate(pose, weighted);
        assert(call_ensures(*iterate, (pose, weighted), r));
        assert(call_ensures(*iterate, (pose, weighted), round_at(*iterate, pose, weighted)));
        pose = r.next;
        weighted = true;
        arrived = r.step.lt(Double { bits: SETTLED_STEP });
        done += 1;
    }
    let last = iterate(pose, weighted);
    assert(call_ensures(*iterate, (pose, weighted), last));
    assert(call_ensures(*iterate, (pose, weighted), round_at(*iterate, pose, weighted)));
    (last.total, pose)
}

} // verus!
