//! A feature changes its anchor: how it depends on the old anchor, the new one
//! and itself, and what that makes of the covariance.

use vstd::prelude::*;

use crate::algebra::{
    add_matrices, entries, is, multiply, negate, negation, nothing, product, ring, sum_of, Ring,
};
use crate::arith::binary;
use crate::double::Double;
use crate::matrix::Matrix;
use crate::vio::kalman::{
    ekf_propagation, lemma_propagated_same, propagated_covariance,
};
use crate::vio::landmark::PointForms;
use crate::vio::state::{camera_base, camera_stride, Run, State};
use crate::vio::state_helper::{all_good, column, first_bad, in_rows, lemma_feature_runs};
use crate::vio::updater_helper::{clone_at, clone_exists, distinct, lemma_distinct};
use crate::vio::updater_slam::{
    anchor_blocks, anchor_change_order, block_at, h_x_old_blocks, join_blocks, phi_runs,
    reanchored, set_anchor,
};

verus! {

/// The derivatives of a feature's global position, under its old and its new
/// anchor.
#[derive(Debug)]
pub struct AnchorDerivatives {
    /// By the feature, under the old anchor.
    pub h_f_old: Matrix,
    /// By each variable of the old anchor.
    pub h_x_old: Vec<Matrix>,
    /// The inverse of that by the feature, under the new anchor.
    pub h_f_new_inv: Matrix,
    /// By each variable of the new anchor.
    pub h_x_new: Vec<Matrix>,
}

impl AnchorDerivatives {
    /// Whether the derivatives have their sizes, for a feature of size `d`.
    pub open spec fn wf(&self, d: int, old_runs: Seq<Run>, new_runs: Seq<Run>) -> bool {
        &&& self.h_f_old.shaped(3, d)
        &&& self.h_f_new_inv.shaped(d, 3)
        &&& self.h_x_old@.len() == old_runs.len()
        &&& self.h_x_new@.len() == new_runs.len()
        &&& forall|i: int| 0 <= i < self.h_x_old@.len() ==> (#[trigger] self.h_x_old@[i]).shaped(3, 6)
        &&& forall|i: int| 0 <= i < self.h_x_new@.len() ==> (#[trigger] self.h_x_new@[i]).shaped(3, 6)
    }
}

/// The first place of a variable in a list, or the list's length.
pub open spec fn place_of(runs: Seq<Run>, run: Run, from: int) -> int
    decreases runs.len() - from,
{
    if from >= runs.len() {
        runs.len() as int
    } else if runs[from] == run {
        from
    } else {
        place_of(runs, run, from + 1)
    }
}

/// How the feature under its new anchor depends on a variable: through the old
/// anchor, less what the new anchor takes up.
pub open spec fn dependence(
    run: Run,
    d: &AnchorDerivatives,
    old_runs: Seq<Run>,
    new_runs: Seq<Run>,
    op: Ring,
) -> spec_fn(int, int) -> Double {
    let inv = entries(&d.h_f_new_inv);
    let i = place_of(old_runs, run, 0);
    let k = place_of(new_runs, run, 0);
    let through = if i < old_runs.len() {
        sum_of(nothing(), product(inv, entries(&d.h_x_old@[i]), op, 3), op)
    } else {
        nothing()
    };
    if k < new_runs.len() {
        sum_of(through, negation(product(inv, entries(&d.h_x_new@[k]), op, 3)), op)
    } else {
        through
    }
}

/// Whether `phi` is the transition of a feature to a new anchor: a block for each
/// variable of the anchors, and one for the feature itself.
pub open spec fn is_anchor_transition(
    phi: &Matrix,
    order: Seq<Run>,
    d: &AnchorDerivatives,
    old_runs: Seq<Run>,
    new_runs: Seq<Run>,
    rows: int,
    op: Ring,
) -> bool {
    let last = order.len() - 1;
    &&& phi.shaped(rows, column(order, order.len() as int))
    &&& forall|p: int, r: int, c: int|
        0 <= p < order.len() && 0 <= r < rows && 0 <= c < order[p].1 ==> #[trigger] block_at(
            phi,
            order,
            p,
            r,
            c,
        ) == (if p < last {
            dependence(order[p], d, old_runs, new_runs, op)(r, c)
        } else {
            sum_of(
                nothing(),
                product(entries(&d.h_f_new_inv), entries(&d.h_f_old), op, 3),
                op,
            )(r, c)
        })
}

/// The first place of a variable in a list, or the list's length.
fn find_run(runs: &Vec<(i32, usize)>, run: (i32, usize)) -> (place: usize)
    ensures
        place == place_of(runs@, run, 0),
        place <= runs@.len(),
{
    let mut i: usize = 0;
    while i < runs.len()
        invariant
            i <= runs@.len(),
            place_of(runs@, run, 0) == place_of(runs@, run, i as int),
        decreases runs@.len() - i,
    {
        if runs[i].0 == run.0 && runs[i].1 == run.1 {
            return i;
        }
        i += 1;
    }
    i
}

/// Adds a product to a block.
fn add_product<P: Fn(Double, Double) -> Double, T: Fn(Double, Double) -> Double>(
    block: &Matrix,
    inv: &Matrix,
    h: &Matrix,
    minus: bool,
    plus: &P,
    times: &T,
    Ghost(before): Ghost<spec_fn(int, int) -> Double>,
) -> (m: Matrix)
    requires
        inv.wf(),
        inv.width() == h.height(),
        h.wf(),
        is(block, inv.height(), h.width(), before),
        binary(*plus),
        binary(*times),
    ensures
        ({
            let op = ring(*plus, *times);
            let p = product(entries(inv), entries(h), op, inv.width());
            is(
                &m,
                inv.height(),
                h.width(),
                sum_of(
                    before,
                    if minus {
                        negation(p)
                    } else {
                        p
                    },
                    op,
                ),
            )
        }),
{
    proof {
        block.lemma_area();
    }
    let p = multiply(inv, h, plus, times);
    if minus {
        let n = negate(&p);
        add_matrices(block, &n, plus)
    } else {
        add_matrices(block, &p, plus)
    }
}

/// How the feature under its new anchor depends on a variable.
fn dependence_block<P: Fn(Double, Double) -> Double, T: Fn(Double, Double) -> Double>(
    run: (i32, usize),
    rows: usize,
    d: &AnchorDerivatives,
    old_runs: &Vec<(i32, usize)>,
    new_runs: &Vec<(i32, usize)>,
    plus: &P,
    times: &T,
) -> (m: Matrix)
    requires
        rows <= 3,
        d.wf(rows as int, old_runs@, new_runs@),
        binary(*plus),
        binary(*times),
    ensures
        is(
            &m,
            rows as int,
            6,
            dependence(run, d, old_runs@, new_runs@, ring(*plus, *times)),
        ),
{
    let ghost op = ring(*plus, *times);
    let mut block = Matrix::filled(rows, 6, Double::zero());
    let ghost mut now = nothing();
    let i = find_run(old_runs, run);
    if i < old_runs.len() {
        block = add_product(&block, &d.h_f_new_inv, &d.h_x_old[i], false, plus, times, Ghost(now));
        proof {
            now = sum_of(
                now,
                product(entries(&d.h_f_new_inv), entries(&d.h_x_old@[i as int]), op, 3),
                op,
            );
        }
    }
    let k = find_run(new_runs, run);
    if k < new_runs.len() {
        block = add_product(&block, &d.h_f_new_inv, &d.h_x_new[k], true, plus, times, Ghost(now));
    }
    block
}

/// The transition of a feature to a new anchor.
fn anchor_transition<P: Fn(Double, Double) -> Double, T: Fn(Double, Double) -> Double>(
    order: &Vec<(i32, usize)>,
    rows: usize,
    d: &AnchorDerivatives,
    old_runs: &Vec<(i32, usize)>,
    new_runs: &Vec<(i32, usize)>,
    plus: &P,
    times: &T,
) -> (phi: Matrix)
    requires
        1 <= rows <= 3,
        order@.len() > 0,
        order@.last().1 == rows,
        forall|p: int| 0 <= p < order@.len() - 1 ==> (#[trigger] order@[p]).1 == 6,
        d.wf(rows as int, old_runs@, new_runs@),
        column(order@, order@.len() as int) <= usize::MAX,
        rows * column(order@, order@.len() as int) <= usize::MAX,
        binary(*plus),
        binary(*times),
    ensures
        is_anchor_transition(
            &phi,
            order@,
            d,
            old_runs@,
            new_runs@,
            rows as int,
            ring(*plus, *times),
        ),
{
    let ghost op = ring(*plus, *times);
    let last: usize = order.len() - 1;
    let mut blocks: Vec<Matrix> = Vec::new();
    let mut p: usize = 0;
    while p < last
        invariant
            p <= last,
            last == order@.len() - 1,
            1 <= rows <= 3,
            forall|q: int| 0 <= q < order@.len() - 1 ==> (#[trigger] order@[q]).1 == 6,
            d.wf(rows as int, old_runs@, new_runs@),
            binary(*plus),
            binary(*times),
            op == ring(*plus, *times),
            blocks@.len() == p,
            forall|q: int|
                0 <= q < p ==> is(
                    &#[trigger] blocks@[q],
                    rows as int,
                    6,
                    dependence(order@[q], d, old_runs@, new_runs@, op),
                ),
        decreases last - p,
    {
        let b = dependence_block(order[p], rows, d, old_runs, new_runs, plus, times);
        blocks.push(b);
        p += 1;
    }
    proof {
        assert(rows * rows <= 9) by (nonlinear_arith)
            requires
                rows <= 3,
        ;
    }
    let own = Matrix::filled(rows, rows, Double::zero());
    let own = add_product(&own, &d.h_f_new_inv, &d.h_f_old, false, plus, times, Ghost(nothing()));
    blocks.push(own);
    let phi = join_blocks(order, &blocks, rows);
    assert forall|q: int, r: int, c: int|
        0 <= q < order@.len() && 0 <= r < rows && 0 <= c < order@[q].1 implies #[trigger] block_at(
        &phi,
        order@,
        q,
        r,
        c,
    ) == (if q < last {
        dependence(order@[q], d, old_runs@, new_runs@, op)(r, c)
    } else {
        sum_of(
            nothing(),
            product(entries(&d.h_f_new_inv), entries(&d.h_f_old), op, 3),
            op,
        )(r, c)
    }) by {
        assert(blocks@[q].has(r, c));
        assert(block_at(&phi, order@, q, r, c) == blocks@[q].at(r, c));
    }
    phi
}

/// The number of columns of a short list of variables.
proof fn lemma_columns(order: Seq<Run>, n: int)
    requires
        0 <= n <= order.len(),
        forall|p: int| 0 <= p < order.len() ==> (#[trigger] order[p]).1 <= 6,
    ensures
        0 <= column(order, n) <= 6 * n,
    decreases n,
{
    if n > 0 {
        lemma_columns(order, n - 1);
    }
}

/// The variables of an anchor are in the covariance.
proof fn lemma_anchor_in_rows(st: &State, cam: int, t: Double)
    requires
        st.wf(),
        clone_exists(st, t),
        0 <= cam < st.calib_imu_to_cam@.len(),
    ensures
        in_rows(anchor_blocks(st, cam, t), st.dim()),
        forall|i: int|
            0 <= i < anchor_blocks(st, cam, t).len() ==> (#[trigger] anchor_blocks(st, cam, t)[i]).1
                == 6,
        anchor_blocks(st, cam, t).len() <= 2,
{
    let k = clone_at(st.clones_imu@, t, 0);
    lemma_clone_at(st, t, 0);
    let head = st.runs_before_clones().len() as int;
    assert(st.runs()[head + k] == (st.clones_imu@[k].1.id, 6usize));
    if st.options.do_calib_camera_pose {
        let o = st.options;
        let stride = camera_stride(o);
        let n = o.num_cameras as int;
        assert(cam * stride + stride <= n * stride) by (nonlinear_arith)
            requires
                cam + 1 <= n,
                0 <= stride,
        ;
        assert(0 <= cam * stride) by (nonlinear_arith)
            requires
                0 <= cam,
                0 <= stride,
        ;
        assert(st.calib_imu_to_cam@[cam].id == camera_base(o) + cam * stride);
    }
}

/// The place of a clone is not before where the search starts.
proof fn lemma_clone_at(st: &State, t: Double, from: int)
    requires
        0 <= from <= st.clones_imu@.len(),
    ensures
        from <= clone_at(st.clones_imu@, t, from) <= st.clones_imu@.len(),
    decreases st.clones_imu@.len() - from,
{
    if from < st.clones_imu@.len() {
        lemma_clone_at(st, t, from + 1);
    }
}

/// Whether a state became another by anchoring its feature at `place` anew: the
/// covariance follows from the transition, and the feature alone changes its point
/// and its anchor, unless the covariance has a negative variance.
pub open spec fn anchor_changed(
    before: &State,
    after: &State,
    place: int,
    t: Double,
    cam: int,
    d: &AnchorDerivatives,
    point: PointForms,
    point_fej: PointForms,
    op: Ring,
    res: Result<(), usize>,
) -> bool {
    let l = before.features_slam@[place];
    let order = phi_runs(before, &l, cam, t);
    let size = l.value@.len() as int;
    &&& exists|phi: Matrix|
        #![trigger phi.shaped(size, column(order, order.len() as int))]
        {
            &&& is_anchor_transition(
                &phi,
                order,
                d,
                anchor_blocks(before, l.anchor_cam_id as int, l.anchor_clone_timestamp),
                anchor_blocks(before, cam, t),
                size,
                op,
            )
            &&& is(
                &after.cov,
                before.dim(),
                before.dim(),
                propagated_covariance(
                    entries(&before.cov),
                    entries(&phi),
                    nothing(),
                    seq![(l.id, l.value.len())],
                    order,
                    op,
                ),
            )
        }
    &&& *after == (State {
        cov: after.cov,
        features_slam: after.features_slam,
        ..*before
    })
    &&& match res {
        Ok(_) => {
            &&& after.wf()
            &&& all_good(&after.cov)
            &&& after.features_slam@.len() == before.features_slam@.len()
            &&& forall|q: int|
                0 <= q < before.features_slam@.len() && q != place
                    ==> #[trigger] after.features_slam@[q] == before.features_slam@[q]
            &&& reanchored(
                l,
                after.features_slam@[place],
                cam as i32,
                t,
                point,
                point_fej,
            )
        },
        Err(k) => first_bad(&after.cov, k as int) && after.features_slam
            == before.features_slam,
    }
}

/// Anchors the state's feature at `place` anew, to the clone at
/// `new_anchor_timestamp` and camera `new_cam_id`: its covariance follows from
/// those of both anchors and its own, and its point and first point become those
/// in the new anchor's coordinates. Fails with the first diagonal entry of the
/// covariance that is not at least zero.
pub fn change_anchor<P: Fn(Double, Double) -> Double, T: Fn(Double, Double) -> Double>(
    state: &mut State,
    place: usize,
    new_anchor_timestamp: Double,
    new_cam_id: usize,
    d: &AnchorDerivatives,
    point: &PointForms,
    point_fej: &PointForms,
    plus: &P,
    times: &T,
) -> (res: Result<(), usize>)
    requires
        old(state).wf(),
        place < old(state).features_slam@.len(),
        old(state).features_slam@[place as int].representation.spec_is_relative(),
        0 <= old(state).features_slam@[place as int].anchor_cam_id < old(
            state,
        ).calib_imu_to_cam@.len(),
        clone_exists(old(state), old(state).features_slam@[place as int].anchor_clone_timestamp),
        new_cam_id < old(state).calib_imu_to_cam@.len(),
        new_cam_id <= i32::MAX,
        clone_exists(old(state), new_anchor_timestamp),
        d.wf(
            old(state).features_slam@[place as int].value@.len() as int,
            anchor_blocks(
                old(state),
                old(state).features_slam@[place as int].anchor_cam_id as int,
                old(state).features_slam@[place as int].anchor_clone_timestamp,
            ),
            anchor_blocks(old(state), new_cam_id as int, new_anchor_timestamp),
        ),
        binary(*plus),
        binary(*times),
    ensures
        anchor_changed(
            old(state),
            final(state),
            place as int,
            new_anchor_timestamp,
            new_cam_id as int,
            d,
            *point,
            *point_fej,
            ring(*plus, *times),
            res,
        ),
{
    let ghost before = *state;
    let ghost l = state.features_slam@[place as int];
    let ghost op = ring(*plus, *times);
    let old_cam: usize = state.features_slam[place].anchor_cam_id as usize;
    let old_t = state.features_slam[place].anchor_clone_timestamp;
    let id: i32 = state.features_slam[place].id;
    let (order, rows) = anchor_change_order(
        state,
        &state.features_slam[place],
        new_anchor_timestamp,
        new_cam_id,
    );
    let old_runs = h_x_old_blocks(state, old_cam, old_t);
    let new_runs = h_x_old_blocks(state, new_cam_id, new_anchor_timestamp);
    proof {
        let both = old_runs@ + new_runs@;
        lemma_anchor_in_rows(state, old_cam as int, old_t);
        lemma_anchor_in_rows(state, new_cam_id as int, new_anchor_timestamp);
        lemma_distinct(both);
        let inner = distinct(both);
        assert(order@ == inner.push((l.id, l.value.len())));
        let features = state.features_slam@;
        lemma_feature_runs(features, features.len() as int);
        let head = state.runs_before_clones().len() as int;
        let clones = state.clones_imu@.len() as int;
        assert(state.runs()[head + clones + place] == (l.id, l.value.len()));
        assert forall|p: int| 0 <= p < inner.len() implies (#[trigger] inner[p]).1 == 6 && 0
            <= inner[p].0 && inner[p].0 + inner[p].1 <= state.dim() by {
            assert(inner.contains(inner[p]));
            assert(both.contains(inner[p]));
            let i = choose|i: int| 0 <= i < both.len() && both[i] == inner[p];
            if i < old_runs@.len() {
                assert(both[i] == old_runs@[i]);
            } else {
                assert(both[i] == new_runs@[i - old_runs@.len()]);
            }
        }
        assert(in_rows(order@, state.dim()));
        lemma_columns(order@, order@.len() as int);
        assert(rows * column(order@, order@.len() as int) <= 3 * 30) by (nonlinear_arith)
            requires
                rows <= 3,
                0 <= column(order@, order@.len() as int) <= 30,
        ;
    }
    let phi = anchor_transition(&order, rows, d, &old_runs, &new_runs, plus, times);
    let q = Matrix::filled(rows, rows, Double::zero());
    let mut order_new: Vec<(i32, usize)> = Vec::new();
    order_new.push((id, rows));
    proof {
        assert(order_new@ =~= seq![(l.id, l.value.len())]);
        assert(column(order_new@, 1) == column(order_new@, 0) + order_new@[0].1);
    }
    let done = ekf_propagation(state, &order_new, &order, &phi, &q, plus, times);
    proof {
        let dim = before.dim();
        let c = entries(&before.cov);
        let whole = propagated_covariance(c, entries(&phi), nothing(), order_new@, order@, op);
        assert forall|i: int, j: int| state.cov.has(i, j) implies #[trigger] state.cov.at(i, j) == whole(
            i,
            j,
        ) by {
            assert forall|x: int, y: int| 0 <= x < rows && 0 <= y < rows implies #[trigger] entries(&q)(
                x,
                y,
            ) == nothing()(x, y) by {
                assert(q.has(x, y));
            }
            lemma_propagated_same(
                c,
                entries(&phi),
                entries(&phi),
                entries(&q),
                nothing(),
                order_new@,
                order@,
                op,
                dim,
                i,
                j,
            );
        }
        assert(is(&state.cov, dim, dim, whole));
        assert(phi.shaped(l.value@.len() as int, column(order@, order@.len() as int)));
    }
    match done {
        Err(k) => {
            return Err(k);
        },
        Ok(_) => {},
    }
    set_anchor(
        &mut state.features_slam[place],
        new_anchor_timestamp,
        new_cam_id as i32,
        point,
        point_fej,
    );
    proof {
        let n = before.features_slam@.len() as int;
        assert forall|k: int| 0 <= k < n implies (#[trigger] state.features_slam@[k]).id
            == before.features_slam@[k].id && state.features_slam@[k].value@.len()
            == before.features_slam@[k].value@.len() by {
            if k == place {
                assert(reanchored(
                    l,
                    state.features_slam@[k],
                    new_cam_id as i32,
                    new_anchor_timestamp,
                    *point,
                    *point_fej,
                ));
            }
        }
        lemma_feature_runs(before.features_slam@, n);
        lemma_feature_runs(state.features_slam@, n);
        assert(state.runs() =~= before.runs());
    }
    Ok(())
}

} // verus!
