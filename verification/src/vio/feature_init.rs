//! A feature joins the state: its measurements fix its position, and what they
//! say beyond that must agree with the state.

use vstd::prelude::*;

use crate::algebra::{
    apply_inverse, col_of, dot, entries, flipped, inverse_of, inverts, is, lemma_dot_same,
    lemma_product, list_of, multiply, negate, negation, product, ring, row_of, transform, Ring,
};
use crate::arith::{apply_two, binary, of_two, of_vectors};
use crate::double::Double;
use crate::matrix::Matrix;
use crate::vio::givens::{cancels, holds, joined, mixes, triangular, triangularize, Rotation};
use crate::vio::kalman::{
    covariance_times, covariance_with, innovate, innovation, law_update_leaves_symmetry,
    lemma_spread_same, marginal, UpdateFault,
};
use crate::vio::estimates::Estimates;
use crate::vio::landmark::Landmark;
use crate::vio::state::{Run, State};
use crate::vio::state_helper::{
    column, enter_feature, feature_entered, feature_known, in_rows, symmetric,
};
use crate::vio::updater::{chi2_95, percentile, tells_percentiles};
use crate::vio::updater_helper::{keep_entries, keep_rows, nullspace_project_inplace};
use crate::vio::updater_slam::{admitted, join_feature, joined_at, Candidate};
use crate::vio::values::{ekf_update, filter_updated, turns};

verus! {

/// Entries from row `di` and column `dj` on.
pub open spec fn moved(f: spec_fn(int, int) -> Double, di: int, dj: int) -> spec_fn(
    int,
    int,
) -> Double {
    |i: int, j: int| f(di + i, dj + j)
}

/// Column `j` of entries, from row `from` on, `n` of them.
pub open spec fn column_part(f: spec_fn(int, int) -> Double, j: int, from: int, n: int) -> Seq<
    Double,
> {
    Seq::new(n as nat, |i: int| f(from + i, j))
}

/// Whether residuals can be sized by their covariance, always in the same way.
pub open spec fn sizes<D: Fn(&Matrix, &Vec<Double>) -> Double>(distance: D) -> bool {
    &&& forall|m: &Matrix, v: &Vec<Double>|
        m.shaped(v@.len() as int, v@.len() as int) ==> #[trigger] call_requires(distance, (m, v))
    &&& forall|m: &Matrix, v: &Vec<Double>, n: &Matrix, w: &Vec<Double>, a: Double, b: Double|
        #[trigger] call_ensures(distance, (m, v), a) && #[trigger] call_ensures(
            distance,
            (n, w),
            b,
        ) && m.same(n) && v@ == w@ ==> a == b
}

/// Whether sizing a residual by its covariance gives the number.
pub open spec fn sized_as<D: Fn(&Matrix, &Vec<Double>) -> Double>(
    distance: D,
    s: spec_fn(int, int) -> Double,
    res: Seq<Double>,
    r: Double,
) -> bool {
    exists|m: &Matrix, v: &Vec<Double>|
        is(m, res.len() as int, res.len() as int, s) && v@ == res && #[trigger] call_ensures(
            distance,
            (m, v),
            r,
        )
}

/// The size of a residual by its covariance.
pub open spec fn sized<D: Fn(&Matrix, &Vec<Double>) -> Double>(
    distance: D,
    s: spec_fn(int, int) -> Double,
    res: Seq<Double>,
) -> Double {
    choose|r: Double| sized_as(distance, s, res, r)
}

/// Whether a candidate is what the rotated measurements of a feature come to.
/// The first rows fix the feature; the others are sized against the state, and
/// only if that size is allowed is the rest computed.
pub open spec fn prepared<
    D: Fn(&Matrix, &Vec<Double>) -> Double,
    W: Fn(usize) -> Double,
    I: Fn(&Matrix) -> Option<Matrix>,
    P: Fn(Double, Double) -> Double,
    T: Fn(Double, Double) -> Double,
>(
    c: Candidate,
    st: &State,
    landmark: Landmark,
    order: Seq<Run>,
    turned: spec_fn(int, int) -> Double,
    r: spec_fn(int, int) -> Double,
    rows: usize,
    multiplier: Double,
    distance: D,
    wide: W,
    invert: I,
    plus: P,
    times: T,
) -> bool {
    let op = ring(plus, times);
    let d = landmark.value@.len() as int;
    let w = column(order, order.len() as int);
    let cov = entries(&st.cov);
    &&& c.chi2 == sized(
        distance,
        innovation(cov, moved(turned, d, d), moved(r, d, d), order, op),
        column_part(turned, d + w, d, rows - d),
    )
    &&& c.threshold == of_two(times, multiplier, percentile(wide, rows))
    &&& c.cross.shaped(st.dim(), d)
    &&& c.own.shaped(d, d)
    &&& !admitted(c) ==> c.landmark == landmark
    &&& admitted(c) ==> (inverse_of(invert, d, turned) matches Some(x) && {
        let inv = entries(&x);
        let top = moved(turned, 0, d);
        &&& is(
            &c.cross,
            st.dim(),
            d,
            product(negation(covariance_with(cov, top, order, op)), flipped(inv), op, d),
        )
        &&& is(
            &c.own,
            d,
            d,
            product(
                product(inv, innovation(cov, top, r, order, op), op, d),
                flipped(inv),
                op,
                d,
            ),
        )
        &&& c.landmark == (Landmark { value: c.landmark.value, ..landmark })
        &&& c.landmark.value@ == of_vectors(
            plus,
            landmark.value@,
            Seq::new(
                d as nat,
                |i: int| dot(row_of(inv, i), list_of(column_part(turned, d + w, 0, d)), op, d),
            ),
        )
    })
}

/// An innovation depends on the entries of derivative and noise alone.
proof fn lemma_innovation_same(
    cov: spec_fn(int, int) -> Double,
    g: spec_fn(int, int) -> Double,
    h: spec_fn(int, int) -> Double,
    p: spec_fn(int, int) -> Double,
    q: spec_fn(int, int) -> Double,
    order: Seq<Run>,
    op: Ring,
    rows: int,
    i: int,
    j: int,
)
    requires
        0 <= i < rows,
        0 <= j < rows,
        forall|x: int, y: int|
            0 <= x < rows && 0 <= y < column(order, order.len() as int) ==> #[trigger] g(x, y) == h(
                x,
                y,
            ),
        p(i, j) == q(i, j),
    ensures
        innovation(cov, g, p, order, op)(i, j) == innovation(cov, h, q, order, op)(i, j),
{
    let w = column(order, order.len() as int);
    let m = marginal(cov, order);
    let a = product(g, m, op, w);
    let b = product(h, m, op, w);
    assert forall|k: int| 0 <= k < w implies #[trigger] row_of(a, i)(k) == row_of(b, i)(k) by {
        assert forall|l: int| 0 <= l < w implies #[trigger] row_of(g, i)(l) == row_of(h, i)(l) by {
            assert(g(i, l) == h(i, l));
        }
        lemma_dot_same(
            row_of(g, i),
            col_of(m, k),
            row_of(h, i),
            col_of(m, k),
            op,
            w,
        );
    }
    assert forall|k: int| 0 <= k < w implies #[trigger] col_of(flipped(g), j)(k)
        == col_of(flipped(h), j)(k) by {
        assert(g(j, k) == h(j, k));
    }
    lemma_dot_same(
        row_of(a, i),
        col_of(flipped(g), j),
        row_of(b, i),
        col_of(flipped(h), j),
        op,
        w,
    );
}

/// Sizes a residual that holds a formula.
pub(crate) fn apply_distance<D: Fn(&Matrix, &Vec<Double>) -> Double>(
    m: &Matrix,
    v: &Vec<Double>,
    distance: &D,
    Ghost(s): Ghost<spec_fn(int, int) -> Double>,
) -> (r: Double)
    requires
        is(m, v@.len() as int, v@.len() as int, s),
        sizes(*distance),
    ensures
        r == sized(*distance, s, v@),
{
    let r = distance(m, v);
    proof {
        let n = v@.len() as int;
        assert(call_ensures(*distance, (m, v), r));
        assert(sized_as(*distance, s, v@, r));
        let chosen = sized(*distance, s, v@);
        assert(sized_as(*distance, s, v@, chosen));
        let (x, w) = choose|x: &Matrix, w: &Vec<Double>|
            is(x, n, n, s) && w@ == v@ && #[trigger] call_ensures(*distance, (x, w), chosen);
        assert forall|i: int, j: int| m.has(i, j) implies #[trigger] m.at(i, j) == x.at(i, j) by {
            assert(x.has(i, j));
        }
        assert(m.same(x));
    }
    r
}

/// Works out what the measurements of a feature come to: whether they agree with
/// the state, and if so the feature's position and covariances. None where the
/// measurements agree but do not fix the feature.
pub fn prepare_feature<
    C: Fn(Double, Double) -> Option<Rotation>,
    R: Fn(Rotation, Double, Double) -> (Double, Double),
    D: Fn(&Matrix, &Vec<Double>) -> Double,
    W: Fn(usize) -> Double,
    I: Fn(&Matrix) -> Option<Matrix>,
    P: Fn(Double, Double) -> Double,
    T: Fn(Double, Double) -> Double,
>(
    state: &State,
    landmark: Landmark,
    h_order: &Vec<(i32, usize)>,
    h_r: &mut Matrix,
    h_l: &mut Matrix,
    r: &Matrix,
    res: &mut Vec<Double>,
    chi2_multipler: Double,
    cancel: &C,
    rotate: &R,
    distance: &D,
    wide: &W,
    invert: &I,
    plus: &P,
    times: &T,
) -> (prep: Option<Candidate>)
    requires
        state.wf(),
        landmark.wf(),
        in_rows(h_order@, state.dim()),
        column(h_order@, h_order@.len() as int) * column(h_order@, h_order@.len() as int)
            <= usize::MAX,
        old(h_l).shaped(old(res).len() as int, landmark.value@.len() as int),
        old(h_r).shaped(old(res).len() as int, column(h_order@, h_order@.len() as int)),
        r.shaped(old(res).len() as int, old(res).len() as int),
        landmark.value@.len() <= old(res).len(),
        state.dim() * 3 <= usize::MAX,
        cancels(*cancel),
        mixes(*rotate),
        sizes(*distance),
        tells_percentiles(*wide),
        inverts(*invert),
        binary(*plus),
        binary(*times),
    ensures
        ({
            let rows = old(res).len();
            let d = landmark.value@.len() as int;
            let w = column(h_order@, h_order@.len() as int);
            let turned = triangular(
                joined(old(h_l), old(h_r), old(res)@),
                *cancel,
                *rotate,
                rows as int,
                d,
            );
            let s = innovation(
                entries(&state.cov),
                moved(turned, d, d),
                moved(entries(r), d, d),
                h_order@,
                ring(*plus, *times),
            );
            &&& final(h_l).shaped(rows as int, d)
            &&& final(h_r).shaped(rows as int, w)
            &&& final(res)@.len() == rows
            &&& holds(final(h_l), final(h_r), final(res)@, turned)
            &&& match prep {
                Some(c) => prepared(
                    c,
                    state,
                    landmark,
                    h_order@,
                    turned,
                    entries(r),
                    rows,
                    chi2_multipler,
                    *distance,
                    *wide,
                    *invert,
                    *plus,
                    *times,
                ) && c.landmark.wf() && c.landmark.featid == landmark.featid,
                None => inverse_of(*invert, d, turned) is None && !of_two(
                    *times,
                    chi2_multipler,
                    percentile(*wide, rows),
                ).spec_lt(sized(*distance, s, column_part(turned, d + w, d, rows - d))),
            }
        }),
{
    let ghost op = ring(*plus, *times);
    let ghost cov = entries(&state.cov);
    let rows: usize = res.len();
    let d: usize = landmark.size();
    let ghost dd = d as int;
    let ghost w = column(h_order@, h_order@.len() as int);
    let ghost dim = state.dim();
    let ghost turned = triangular(joined(h_l, h_r, res@), *cancel, *rotate, rows as int, dd);
    triangularize(h_l, h_r, res, cancel, rotate);
    let cols: usize = h_r.ncols();
    let beyond: usize = rows - d;
    proof {
        h_r.lemma_area();
        r.lemma_area();
        state.cov.lemma_shape();
        assert(beyond * cols <= rows * cols) by (nonlinear_arith)
            requires
                beyond <= rows,
        ;
        assert(beyond * beyond <= rows * rows) by (nonlinear_arith)
            requires
                beyond <= rows,
        ;
        assert(d * cols <= rows * cols) by (nonlinear_arith)
            requires
                d <= rows,
        ;
        assert(d * d <= 9) by (nonlinear_arith)
            requires
                d <= 3,
        ;
        assert(dim * d <= dim * 3) by (nonlinear_arith)
            requires
                d <= 3,
                0 <= dim,
        ;
    }
    let h_up = h_r.block(d, 0, beyond, cols);
    let r_up = r.block(d, d, beyond, beyond);
    let res_up = keep_entries(res, d, beyond);
    let ghost lower = moved(turned, dd, dd);
    let ghost s_up = innovation(cov, lower, moved(entries(r), dd, dd), h_order@, op);
    let s = innovate(state, h_order, &h_up, &r_up, plus, times);
    proof {
        assert forall|x: int, y: int| 0 <= x < beyond && 0 <= y < w implies #[trigger] entries(&h_up)(
            x,
            y,
        ) == lower(x, y) by {
            assert(h_up.has(x, y));
            assert(h_r.has(d + x, y));
            assert(h_r.at(d + x, y) == turned(d + x, d + y));
        }
        assert forall|i: int, j: int| s.has(i, j) implies #[trigger] s.at(i, j) == s_up(i, j) by {
            assert(r_up.has(i, j));
            lemma_innovation_same(
                cov,
                entries(&h_up),
                lower,
                entries(&r_up),
                moved(entries(r), dd, dd),
                h_order@,
                op,
                beyond as int,
                i,
                j,
            );
        }
        assert(res_up@ =~= column_part(turned, d + w, dd, rows - d)) by {
            assert forall|i: int| 0 <= i < beyond implies #[trigger] res_up@[i] == turned(
                d + i,
                d + w,
            ) by {
                assert(res@[d + i] == turned(d + i, d + w));
            }
        }
    }
    let chi2 = apply_distance(&s, &res_up, distance, Ghost(s_up));
    let threshold = apply_two(times, chi2_multipler, chi2_95(rows, wide));
    if threshold.lt(chi2) {
        let n: usize = state.cov.nrows();
        return Some(
            Candidate {
                landmark,
                chi2,
                threshold,
                cross: Matrix::filled(n, d, Double::zero()),
                own: Matrix::filled(d, d, Double::zero()),
            },
        );
    }
    let hx = h_r.block(0, 0, d, cols);
    let top = h_l.block(0, 0, d, d);
    let r_init = r.block(0, 0, d, d);
    let res_init = keep_entries(res, 0, d);
    let ghost upper = moved(turned, 0, dd);
    proof {
        assert(is(&top, dd, dd, turned)) by {
            assert forall|i: int, j: int| top.has(i, j) implies #[trigger] top.at(i, j) == turned(
                i,
                j,
            ) by {
                assert(h_l.has(i, j));
                assert(h_l.at(0 + i, 0 + j) == turned(i, j));
            }
        }
        assert forall|x: int, y: int| 0 <= x < d && 0 <= y < w implies #[trigger] entries(&hx)(x, y)
            == upper(x, y) by {
            assert(hx.has(x, y));
            assert(h_r.has(0 + x, 0 + y));
            assert(h_r.at(0 + x, 0 + y) == turned(x, d + y));
        }
        assert(res_init@ =~= column_part(turned, d + w, 0, dd)) by {
            assert forall|i: int| 0 <= i < d implies #[trigger] res_init@[i] == turned(
                0 + i,
                d + w,
            ) by {
                assert(res@[0 + i] == turned(i, d + w));
            }
        }
    }
    let inv = match apply_inverse(&top, invert, Ghost(turned)) {
        None => {
            return None;
        },
        Some(x) => x,
    };
    let ghost chosen = inverse_of(*invert, dd, turned)->0;
    let ghost e = entries(&chosen);
    let m_a = covariance_times(&state.cov, &hx, h_order, plus, times);
    let m = innovate(state, h_order, &hx, &r_init, plus, times);
    let invt = inv.transpose();
    let half = multiply(&inv, &m, plus, times);
    let own = multiply(&half, &invt, plus, times);
    let less = negate(&m_a);
    let cross = multiply(&less, &invt, plus, times);
    let dx = transform(&inv, &res_init, plus, times);
    let mut grown = landmark;
    grown.update(&dx, plus);
    proof {
        assert(inv.same(&chosen));
        assert(is(&inv, dd, dd, e));
        assert(is(&invt, dd, dd, flipped(e))) by {
            assert forall|i: int, j: int| invt.has(i, j) implies #[trigger] invt.at(i, j) == flipped(
                e,
            )(i, j) by {
                assert(inv.has(j, i));
                assert(inv.at(j, i) == e(j, i));
            }
        }
        let inn = innovation(cov, upper, entries(r), h_order@, op);
        assert(is(&m, dd, dd, inn)) by {
            assert forall|i: int, j: int| m.has(i, j) implies #[trigger] m.at(i, j) == inn(i, j) by {
                assert(r_init.has(i, j));
                assert(r_init.at(i, j) == r.at(0 + i, 0 + j));
                lemma_innovation_same(
                    cov,
                    entries(&hx),
                    upper,
                    entries(&r_init),
                    entries(r),
                    h_order@,
                    op,
                    dd,
                    i,
                    j,
                );
            }
        }
        lemma_product(&half, &inv, &m, e, inn, op);
        lemma_product(&own, &half, &invt, product(e, inn, op, dd), flipped(e), op);
        let with = covariance_with(cov, upper, h_order@, op);
        assert(is(&less, dim, dd, negation(with))) by {
            assert forall|i: int, j: int| less.has(i, j) implies #[trigger] less.at(i, j) == negation(
                with,
            )(i, j) by {
                assert(m_a.has(i, j));
                assert(m_a.at(i, j) == covariance_with(cov, entries(&hx), h_order@, op)(i, j));
                lemma_spread_same(
                    cov,
                    entries(&hx),
                    upper,
                    h_order@,
                    op,
                    i,
                    j,
                    h_order@.len() as int,
                );
            }
        }
        lemma_product(&cross, &less, &invt, negation(with), flipped(e), op);
        let step = Seq::new(
            d as nat,
            |i: int| dot(row_of(e, i), list_of(column_part(turned, d + w, 0, dd)), op, dd),
        );
        assert(dx@ =~= step) by {
            assert forall|i: int| 0 <= i < d implies #[trigger] dx@[i] == step[i] by {
                assert forall|k: int| 0 <= k < d implies #[trigger] row_of(entries(&inv), i)(k)
                    == row_of(e, i)(k) by {
                    assert(inv.has(i, k));
                    assert(inv.at(i, k) == e(i, k));
                }
                lemma_dot_same(
                    row_of(entries(&inv), i),
                    list_of(res_init@),
                    row_of(e, i),
                    list_of(res_init@),
                    op,
                    dd,
                );
            }
        }
    }
    Some(Candidate { landmark: grown, chi2, threshold, cross, own })
}

/// Why a feature could not join the state.
#[derive(Clone, Copy, Debug)]
pub enum FeatureFault {
    /// The measurements agree with the state but do not fix the feature.
    Unfixed,
    /// The update with what the measurements say beyond the feature failed.
    Update(UpdateFault),
}

/// How a feature joined the state.
#[derive(Debug)]
pub enum Joined {
    /// It did not: its measurements do not agree with the state.
    Refused,
    /// It did, and its measurements say no more than where it is.
    Entered,
    /// It did, and what its measurements say beyond that moved the state by the
    /// increment.
    Updated(Vec<Double>),
}

/// Whether a filter became another as an admitted candidate entered and what the
/// measurements say beyond it, the lower rows, updated the state with it.
pub open spec fn joined_state<
    I: Fn(&Matrix) -> Option<Matrix>,
    U: Fn([Double; 9], [Double; 3]) -> [Double; 9],
    P: Fn(Double, Double) -> Double,
>(
    before: &State,
    entered: &State,
    after: &State,
    values: &Estimates,
    moved_values: &Estimates,
    c: Candidate,
    order: Seq<Run>,
    turned: spec_fn(int, int) -> Double,
    r: spec_fn(int, int) -> Double,
    rows: int,
    h_up: &Matrix,
    r_up: &Matrix,
    solve: I,
    turn: U,
    plus: P,
    op: Ring,
    done: Result<Joined, FeatureFault>,
) -> bool {
    let d = c.landmark.value@.len() as int;
    let w = column(order, order.len() as int);
    &&& admitted(c)
    &&& feature_entered(before, entered, c.landmark, &c.cross, &c.own)
    &&& if rows == d {
        &&& *after == *entered
        &&& *moved_values == *values
        &&& done is Ok && done->Ok_0 is Entered
    } else {
        &&& is(h_up, rows - d, w, moved(turned, d, d))
        &&& is(r_up, rows - d, rows - d, moved(r, d, d))
        &&& match done {
            Ok(Joined::Updated(dx)) => filter_updated(
                entered,
                after,
                values,
                moved_values,
                order,
                h_up,
                column_part(turned, d + w, d, rows - d),
                r_up,
                solve,
                turn,
                plus,
                op,
                Ok(dx),
            ),
            Err(FeatureFault::Update(e)) => filter_updated(
                entered,
                after,
                values,
                moved_values,
                order,
                h_up,
                column_part(turned, d + w, d, rows - d),
                r_up,
                solve,
                turn,
                plus,
                op,
                Err(e),
            ),
            _ => false,
        }
    }
}

/// Whether a filter became another by the measurements of a feature: refused,
/// unfixed, or joined.
pub open spec fn feature_joined<
    C: Fn(Double, Double) -> Option<Rotation>,
    R: Fn(Rotation, Double, Double) -> (Double, Double),
    D: Fn(&Matrix, &Vec<Double>) -> Double,
    W: Fn(usize) -> Double,
    I: Fn(&Matrix) -> Option<Matrix>,
    H: Fn(&Matrix) -> Option<Matrix>,
    U: Fn([Double; 9], [Double; 3]) -> [Double; 9],
    P: Fn(Double, Double) -> Double,
    T: Fn(Double, Double) -> Double,
>(
    before: &State,
    after: &State,
    values: &Estimates,
    moved_values: &Estimates,
    landmark: Landmark,
    order: Seq<Run>,
    h_r: &Matrix,
    h_l: &Matrix,
    r: &Matrix,
    res: Seq<Double>,
    multiplier: Double,
    cancel: C,
    rotate: R,
    distance: D,
    wide: W,
    invert: I,
    solve: H,
    turn: U,
    plus: P,
    times: T,
    done: Result<Joined, FeatureFault>,
) -> bool {
    let rows = res.len() as int;
    let op = ring(plus, times);
    let d = landmark.value@.len() as int;
    let w = column(order, order.len() as int);
    let turned = triangular(joined(h_l, h_r, res), cancel, rotate, rows, d);
    let s = innovation(
        entries(&before.cov),
        moved(turned, d, d),
        moved(entries(r), d, d),
        order,
        op,
    );
    let chi2 = sized(distance, s, column_part(turned, d + w, d, rows - d));
    let threshold = of_two(times, multiplier, percentile(wide, rows as usize));
    if threshold.spec_lt(chi2) {
        &&& done is Ok && done->Ok_0 is Refused
        &&& *after == *before
        &&& *moved_values == *values
    } else if inverse_of(invert, d, turned) is None {
        &&& done is Err && done->Err_0 is Unfixed
        &&& *after == *before
        &&& *moved_values == *values
    } else {
        exists|c: Candidate, entered: State, h_up: Matrix, r_up: Matrix|
            #[trigger]
            joined_state(
                before,
                &entered,
                after,
                values,
                moved_values,
                c,
                order,
                turned,
                entries(r),
                rows,
                &h_up,
                &r_up,
                solve,
                turn,
                plus,
                op,
                done,
            ) && prepared(
                c,
                before,
                landmark,
                order,
                turned,
                entries(r),
                rows as usize,
                multiplier,
                distance,
                wide,
                invert,
                plus,
                times,
            )
    }
}

/// Adds a feature to the state, if its measurements agree with the state. What they
/// say beyond where the feature is updates the state with the feature in it.
pub fn initialize_feature<
    C: Fn(Double, Double) -> Option<Rotation>,
    R: Fn(Rotation, Double, Double) -> (Double, Double),
    D: Fn(&Matrix, &Vec<Double>) -> Double,
    W: Fn(usize) -> Double,
    I: Fn(&Matrix) -> Option<Matrix>,
    H: Fn(&Matrix) -> Option<Matrix>,
    U: Fn([Double; 9], [Double; 3]) -> [Double; 9],
    P: Fn(Double, Double) -> Double,
    T: Fn(Double, Double) -> Double,
>(
    state: &mut State,
    values: &mut Estimates,
    landmark: Landmark,
    h_order: &Vec<(i32, usize)>,
    h_r: &mut Matrix,
    h_l: &mut Matrix,
    r: &Matrix,
    res: &mut Vec<Double>,
    chi2_multipler: Double,
    cancel: &C,
    rotate: &R,
    distance: &D,
    wide: &W,
    invert: &I,
    solve: &H,
    turn: &U,
    plus: &P,
    times: &T,
) -> (done: Result<Joined, FeatureFault>)
    requires
        old(state).wf(),
        old(values).fits(old(state)),
        landmark.wf(),
        feature_known(old(state), landmark.featid) ==> old(res).len() == landmark.value@.len(),
        in_rows(h_order@, old(state).dim()),
        column(h_order@, h_order@.len() as int) * column(h_order@, h_order@.len() as int)
            <= usize::MAX,
        old(h_l).shaped(old(res).len() as int, landmark.value@.len() as int),
        old(h_r).shaped(old(res).len() as int, column(h_order@, h_order@.len() as int)),
        r.shaped(old(res).len() as int, old(res).len() as int),
        landmark.value@.len() <= old(res).len(),
        old(state).dim() + 3 <= i32::MAX,
        (old(state).dim() + 3) * (old(state).dim() + 3) <= usize::MAX,
        (old(state).dim() + 3) * old(res).len() <= usize::MAX,
        cancels(*cancel),
        mixes(*rotate),
        sizes(*distance),
        tells_percentiles(*wide),
        inverts(*invert),
        inverts(*solve),
        turns(*turn),
        binary(*plus),
        binary(*times),
    ensures
        !feature_known(old(state), landmark.featid) ==> final(state).wf() && final(values).fits(
            final(state),
        ),
        feature_joined(
            old(state),
            final(state),
            old(values),
            final(values),
            landmark,
            h_order@,
            old(h_r),
            old(h_l),
            r,
            old(res)@,
            chi2_multipler,
            *cancel,
            *rotate,
            *distance,
            *wide,
            *invert,
            *solve,
            *turn,
            *plus,
            *times,
            done,
        ),
{
    let ghost op = ring(*plus, *times);
    let ghost before = *state;
    let ghost first = *values;
    let rows: usize = res.len();
    let d: usize = landmark.size();
    let ghost w = column(h_order@, h_order@.len() as int);
    let ghost turned = triangular(joined(h_l, h_r, res@), *cancel, *rotate, rows as int, d as int);
    proof {
        let n = state.dim();
        state.cov.lemma_shape();
        h_r.lemma_shape();
        h_r.lemma_area();
        assert(n * 3 <= (n + 3) * (n + 3)) by (nonlinear_arith)
            requires
                0 <= n,
        ;
    }
    let c = match prepare_feature(
        state,
        landmark,
        h_order,
        h_r,
        h_l,
        r,
        res,
        chi2_multipler,
        cancel,
        rotate,
        distance,
        wide,
        invert,
        plus,
        times,
    ) {
        None => {
            return Err(FeatureFault::Unfixed);
        },
        Some(c) => c,
    };
    let ghost whole = c;
    assert(admitted(whole) == !whole.threshold.spec_lt(whole.chi2));
    let yes = enter_feature(state, c.landmark, c.chi2, c.threshold, &c.cross, &c.own);
    if !yes {
        return Ok(Joined::Refused);
    }
    let ghost entered = *state;
    if rows == d {
        proof {
            assert(joined_state(
                &before,
                &entered,
                state,
                &first,
                values,
                whole,
                h_order@,
                turned,
                entries(r),
                rows as int,
                r,
                r,
                *solve,
                *turn,
                *plus,
                op,
                Ok(Joined::Entered),
            ));
        }
        return Ok(Joined::Entered);
    }
    let count: usize = rows - d;
    proof {
        r.lemma_area();
        assert(count * w <= rows * w) by (nonlinear_arith)
            requires
                0 <= count <= rows,
                0 <= w,
        ;
        assert(count * count <= rows * rows) by (nonlinear_arith)
            requires
                0 <= count <= rows,
        ;
        assert(state.dim() * count <= (before.dim() + 3) * rows) by (nonlinear_arith)
            requires
                0 <= state.dim() <= before.dim() + 3,
                0 <= count <= rows,
        ;
    }
    let h_up = keep_rows(h_r, d, count);
    let res_up = keep_entries(res, d, count);
    let r_up = r.block(d, d, count, count);
    proof {
        assert forall|i: int, j: int| h_up.has(i, j) implies #[trigger] h_up.at(i, j) == moved(
            turned,
            d as int,
            d as int,
        )(i, j) by {
            assert(h_r.has(d + i, j));
            assert(h_r.at(d + i, j) == turned(d + i, d + j));
        }
        assert forall|i: int, j: int| r_up.has(i, j) implies #[trigger] r_up.at(i, j) == moved(
            entries(r),
            d as int,
            d as int,
        )(i, j) by {
            assert(r_up.at(i, j) == r.at(d + i, d + j));
        }
        assert(res_up@ =~= column_part(turned, d + w, d as int, count as int)) by {
            assert forall|i: int| 0 <= i < count implies #[trigger] res_up@[i] == turned(
                d + i,
                d + w,
            ) by {
                assert(res@[d + i] == turned(d + i, d + w));
            }
        }
    }
    let updated = ekf_update(
        state,
        values,
        h_order,
        &h_up,
        &res_up,
        &r_up,
        solve,
        turn,
        plus,
        times,
    );
    let done = match updated {
        Ok(dx) => Ok(Joined::Updated(dx)),
        Err(e) => Err(FeatureFault::Update(e)),
    };
    proof {
        assert(joined_state(
            &before,
            &entered,
            state,
            &first,
            values,
            whole,
            h_order@,
            turned,
            entries(r),
            rows as int,
            &h_up,
            &r_up,
            *solve,
            *turn,
            *plus,
            op,
            done,
        ));
    }
    done
}

/// Whether a system was parted into the state with the depth, and the bearing.
pub open spec fn parts_depth(parts: (Matrix, Matrix), h_x: &Matrix, h_f: &Matrix) -> bool {
    &&& parts.0.shaped(h_x.height(), h_x.width() + 1)
    &&& forall|i: int, j: int|
        parts.0.has(i, j) ==> #[trigger] parts.0.at(i, j) == joined_at(h_x, h_f, true, i, j)
    &&& parts.1.shaped(h_x.height(), h_f.width() - 1)
    &&& forall|i: int, j: int| parts.1.has(i, j) ==> #[trigger] parts.1.at(i, j) == h_f.at(i, j)
}

/// Whether a feature's bearing was eliminated, so that only its depth is left: the
/// bearing's columns are made triangular, and their rows dropped.
pub open spec fn depth_separated<
    C: Fn(Double, Double) -> Option<Rotation>,
    R: Fn(Rotation, Double, Double) -> (Double, Double),
>(
    left: (Matrix, Matrix),
    r: Seq<Double>,
    h_x: &Matrix,
    h_f: &Matrix,
    res: Seq<Double>,
    cancel: C,
    rotate: R,
) -> bool {
    exists|parts: (Matrix, Matrix)| #[trigger]
        parts_depth(parts, h_x, h_f) && ({
            let b = h_f.width() - 1;
            let w = h_x.width();
            let rows = h_x.height() - b;
            let turned = triangular(
                joined(&parts.1, &parts.0, res),
                cancel,
                rotate,
                h_x.height(),
                b,
            );
            &&& is(&left.0, rows, w, moved(turned, b, b))
            &&& is(&left.1, rows, 1, moved(turned, b, b + w))
            &&& r == column_part(turned, b + w + 1, b, rows)
        })
}

/// Eliminates a feature's bearing, so that only its depth is left: the bearing's
/// columns are made triangular, and their rows dropped. Gives the derivatives by
/// the state and by the depth.
pub fn separate_depth<
    C: Fn(Double, Double) -> Option<Rotation>,
    R: Fn(Rotation, Double, Double) -> (Double, Double),
>(h_x: &Matrix, h_f: &Matrix, res: &mut Vec<Double>, cancel: &C, rotate: &R) -> (left: (
    Matrix,
    Matrix,
))
    requires
        h_x.wf(),
        h_f.wf(),
        h_f.height() == h_x.height(),
        old(res)@.len() == h_x.height(),
        1 <= h_f.width() <= h_x.height(),
        h_x.width() + h_f.width() <= usize::MAX,
        h_x.height() * (h_x.width() + h_f.width()) <= usize::MAX,
        cancels(*cancel),
        mixes(*rotate),
    ensures
        depth_separated(left, final(res)@, h_x, h_f, old(res)@, *cancel, *rotate),
{
    let rows: usize = h_x.nrows();
    let cols: usize = h_x.ncols();
    let depth: usize = h_f.ncols();
    let (mut h_xf, mut bearing) = join_feature(h_x, h_f, true);
    let ghost parts = (h_xf, bearing);
    proof {
        assert(parts_depth(parts, h_x, h_f));
        assert(rows * (cols + 1) <= rows * (cols + depth)) by (nonlinear_arith)
            requires
                1 <= depth,
        ;
    }
    nullspace_project_inplace(&mut bearing, &mut h_xf, res, cancel, rotate);
    let keep: usize = rows - (depth - 1);
    proof {
        assert(keep * cols <= rows * (cols + depth)) by (nonlinear_arith)
            requires
                keep <= rows,
        ;
        assert(keep * 1 <= rows * (cols + depth)) by (nonlinear_arith)
            requires
                keep <= rows,
                1 <= depth,
        ;
    }
    let by_state = h_xf.block(0, 0, keep, cols);
    let by_depth = h_xf.block(0, cols, keep, 1);
    proof {
        let b = h_f.width() - 1;
        let w = h_x.width();
        let turned = triangular(
            joined(&parts.1, &parts.0, old(res)@),
            *cancel,
            *rotate,
            h_x.height(),
            b,
        );
        assert forall|i: int, j: int| by_state.has(i, j) implies #[trigger] by_state.at(i, j) == moved(
            turned,
            b,
            b,
        )(i, j) by {
            assert(h_xf.has(i, j));
            assert(h_xf.at(0 + i, 0 + j) == turned(b + i, b + j));
        }
        assert forall|i: int, j: int| by_depth.has(i, j) implies #[trigger] by_depth.at(i, j) == moved(
            turned,
            b,
            b + w,
        )(i, j) by {
            assert(h_xf.has(i, w + j));
            assert(h_xf.at(0 + i, cols + j) == turned(b + i, b + (w + j)));
        }
        assert(res@ =~= column_part(turned, b + w + 1, b, rows - b)) by {
            assert(b + (w + 1) == b + w + 1);
        }
    }
    (by_state, by_depth)
}

/// A feature that joined with an update leaves a symmetric covariance, if sums do
/// not depend on the order of their terms.
pub proof fn law_joining_leaves_symmetry<
    C: Fn(Double, Double) -> Option<Rotation>,
    R: Fn(Rotation, Double, Double) -> (Double, Double),
    D: Fn(&Matrix, &Vec<Double>) -> Double,
    W: Fn(usize) -> Double,
    I: Fn(&Matrix) -> Option<Matrix>,
    H: Fn(&Matrix) -> Option<Matrix>,
    U: Fn([Double; 9], [Double; 3]) -> [Double; 9],
    P: Fn(Double, Double) -> Double,
    T: Fn(Double, Double) -> Double,
>(
    before: &State,
    after: &State,
    values: &Estimates,
    moved_values: &Estimates,
    landmark: Landmark,
    order: Seq<Run>,
    h_r: &Matrix,
    h_l: &Matrix,
    r: &Matrix,
    res: Seq<Double>,
    multiplier: Double,
    cancel: C,
    rotate: R,
    distance: D,
    wide: W,
    invert: I,
    solve: H,
    turn: U,
    plus: P,
    times: T,
    done: Result<Joined, FeatureFault>,
)
    requires
        feature_joined(
            before,
            after,
            values,
            moved_values,
            landmark,
            order,
            h_r,
            h_l,
            r,
            res,
            multiplier,
            cancel,
            rotate,
            distance,
            wide,
            invert,
            solve,
            turn,
            plus,
            times,
            done,
        ),
        done is Ok && done->Ok_0 is Updated,
        forall|a: Double, b: Double| #[trigger] of_two(plus, a, b) == of_two(plus, b, a),
    ensures
        symmetric(&after.cov),
{
    let rows = res.len() as int;
    let op = ring(plus, times);
    let d = landmark.value@.len() as int;
    let w = column(order, order.len() as int);
    let turned = triangular(joined(h_l, h_r, res), cancel, rotate, rows, d);
    let (c, entered, h_up, r_up) = choose|c: Candidate, entered: State, h_up: Matrix, r_up: Matrix|
        #[trigger]
        joined_state(
            before,
            &entered,
            after,
            values,
            moved_values,
            c,
            order,
            turned,
            entries(r),
            rows,
            &h_up,
            &r_up,
            solve,
            turn,
            plus,
            op,
            done,
        );
    let middle = State { features_slam: entered.features_slam, ..*after };
    let dx = done->Ok_0->Updated_0;
    law_update_leaves_symmetry(
        &entered,
        &middle,
        order,
        &h_up,
        column_part(turned, d + w, d, rows - d),
        &r_up,
        solve,
        op,
        Ok::<Vec<Double>, UpdateFault>(dx),
    );
}

} // verus!
