//! The update with window features: which of them are used, and how their
//! residual systems are stacked.

use vstd::prelude::*;

use crate::double::Double;
use crate::matrix::Matrix;
use crate::vio::options::{FeatRepresentation, UpdaterOptions};
use crate::vio::state::Run;
use crate::vio::state_helper::{column, hx_col, lemma_column_monotonic};
use crate::vio::updater_helper::{
    column_of, distinct, lemma_distinct, lemma_distinct_push, lemma_index_of, register, run_column,
    Feature,
};

verus! {

/// The 95th percentiles of the chi-squared distributions with one to thirty
/// degrees of freedom.
pub open spec fn chi2_95_table() -> Seq<u64> {
    seq![
        0x400E_BB64_5A1C_AC08,
        0x4017_F74B_C6A7_EF9E,
        0x401F_4240_B780_346E,
        0x4022_F9B3_D07C_84B6,
        0x4026_2418_9374_BC6A,
        0x4029_2EE6_31F8_A090,
        0x402C_225A_EE63_1F8A,
        0x402F_03BC_D35A_8588,
        0x4030_EB43_9581_0625,
        0x4032_4E97_8D4F_DF3B,
        0x4033_ACD3_5A85_8794,
        0x4035_06AE_7D56_6CF4,
        0x4036_5CAC_0831_26E9,
        0x4037_AF4F_0D84_4D01,
        0x4038_FEEC_BFB1_5B57,
        0x403A_4BD3_C361_1340,
        0x403B_964C_2F83_7B4A,
        0x403C_DE8A_71DE_69AD,
        0x403E_24BC_6A7E_F9DB,
        0x403F_690F_F972_4745,
        0x4040_55D6_3886_594B,
        0x4040_F652_BD3C_3611,
        0x4041_9614_7AE1_47AE,
        0x4042_351E_B851_EB85,
        0x4042_D385_1EB8_51EC,
        0x4043_714A_F4F0_D845,
        0x4044_0E80_9D49_5183,
        0x4044_AB29_5E9E_1B09,
        0x4045_474B_C6A7_EF9E,
        0x4045_E2F1_A9FB_E76D,
    ]
}

/// Whether percentiles beyond the table can be told, always in the same way.
pub open spec fn tells_percentiles<W: Fn(usize) -> Double>(wide: W) -> bool {
    &&& forall|n: usize| #[trigger] call_requires(wide, (n,))
    &&& forall|n: usize, a: Double, b: Double| #[trigger]
        call_ensures(wide, (n,), a) && #[trigger] call_ensures(wide, (n,), b) ==> a == b
}

/// The percentile for `n` degrees of freedom: from the table, or beyond it.
pub open spec fn percentile<W: Fn(usize) -> Double>(wide: W, n: usize) -> Double {
    if n == 0 {
        Double { bits: 0 }
    } else if n <= 30 {
        Double { bits: chi2_95_table()[n - 1] }
    } else {
        choose|r: Double| call_ensures(wide, (n,), r)
    }
}

/// The 95th percentile for `dof` degrees of freedom. Beyond thirty it is told by
/// `wide`.
pub fn chi2_95<W: Fn(usize) -> Double>(dof: usize, wide: &W) -> (q: Double)
    requires
        tells_percentiles(*wide),
    ensures
        q == percentile(*wide, dof),
{
    if dof == 0 {
        return Double::zero();
    }
    if dof <= 30 {
        let table: [u64; 30] = [
            0x400E_BB64_5A1C_AC08,
            0x4017_F74B_C6A7_EF9E,
            0x401F_4240_B780_346E,
            0x4022_F9B3_D07C_84B6,
            0x4026_2418_9374_BC6A,
            0x4029_2EE6_31F8_A090,
            0x402C_225A_EE63_1F8A,
            0x402F_03BC_D35A_8588,
            0x4030_EB43_9581_0625,
            0x4032_4E97_8D4F_DF3B,
            0x4033_ACD3_5A85_8794,
            0x4035_06AE_7D56_6CF4,
            0x4036_5CAC_0831_26E9,
            0x4037_AF4F_0D84_4D01,
            0x4038_FEEC_BFB1_5B57,
            0x403A_4BD3_C361_1340,
            0x403B_964C_2F83_7B4A,
            0x403C_DE8A_71DE_69AD,
            0x403E_24BC_6A7E_F9DB,
            0x403F_690F_F972_4745,
            0x4040_55D6_3886_594B,
            0x4040_F652_BD3C_3611,
            0x4041_9614_7AE1_47AE,
            0x4042_351E_B851_EB85,
            0x4042_D385_1EB8_51EC,
            0x4043_714A_F4F0_D845,
            0x4044_0E80_9D49_5183,
            0x4044_AB29_5E9E_1B09,
            0x4045_474B_C6A7_EF9E,
            0x4045_E2F1_A9FB_E76D,
        ];
        assert(table@ =~= chi2_95_table());
        return Double { bits: table[dof - 1] };
    }
    let q = wide(dof);
    assert(call_ensures(*wide, (dof,), q));
    assert(call_ensures(*wide, (dof,), percentile(*wide, dof)));
    q
}

/// The percentiles of the table increase with the degrees of freedom.
pub proof fn law_chi2_increases(i: int, j: int)
    requires
        0 <= i < j < 30,
    ensures
        (Double { bits: chi2_95_table()[i] }).spec_lt(Double { bits: chi2_95_table()[j] }),
{
    let t = chi2_95_table();
    assert(t[0] < t[1] < t[2] < t[3] < t[4] < t[5] < t[6] < t[7] < t[8] < t[9] < t[10] < t[11]
        < t[12] < t[13] < t[14] < t[15] < t[16] < t[17] < t[18] < t[19] < t[20] < t[21] < t[22]
        < t[23] < t[24] < t[25] < t[26] < t[27] < t[28] < t[29] < crate::double::INFINITY_BITS);
}

/// The first `n` items, without those that are not to be kept.
pub open spec fn kept<T>(items: Seq<T>, keep: Seq<bool>, n: int) -> Seq<T>
    decreases n,
{
    if n <= 0 {
        seq![]
    } else if keep[n - 1] {
        kept(items, keep, n - 1).push(items[n - 1])
    } else {
        kept(items, keep, n - 1)
    }
}

/// Drops the items that are not to be kept.
pub fn retain_flagged<T>(items: &mut Vec<T>, keep: &Vec<bool>)
    requires
        keep@.len() == old(items)@.len(),
    ensures
        final(items)@ == kept(old(items)@, keep@, keep@.len() as int),
{
    let n: usize = items.len();
    let mut i: usize = 0;
    let mut k: usize = 0;
    assert(items@ =~= kept(old(items)@, keep@, 0) + old(items)@.skip(0));
    while k < n
        invariant
            k <= n,
            n == keep@.len(),
            n == old(items)@.len(),
            i <= k,
            i == kept(old(items)@, keep@, k as int).len(),
            items@ == kept(old(items)@, keep@, k as int) + old(items)@.skip(k as int),
        decreases n - k,
    {
        let ghost done = kept(old(items)@, keep@, k as int);
        let ghost rest = old(items)@.skip(k as int);
        assert(rest[0] == old(items)@[k as int]);
        assert(rest.skip(1) =~= old(items)@.skip(k + 1));
        if keep[k] {
            assert(items@ =~= done.push(rest[0]) + rest.skip(1));
            i += 1;
        } else {
            items.remove(i);
            assert(items@ =~= done + rest.skip(1));
        }
        k += 1;
    }
    assert(items@ =~= kept(old(items)@, keep@, n as int));
}

/// The representation that a window update uses: a single inverse depth cannot
/// be eliminated and becomes a full one.
pub open spec fn window_representation(rep: FeatRepresentation) -> FeatRepresentation {
    if rep is AnchoredInverseDepthSingle {
        FeatRepresentation::AnchoredMsckfInverseDepth
    } else {
        rep
    }
}

/// The representation that a window update uses.
pub fn update_representation(rep: FeatRepresentation) -> (r: FeatRepresentation)
    ensures
        r == window_representation(rep),
{
    match rep {
        FeatRepresentation::AnchoredInverseDepthSingle =>
            FeatRepresentation::AnchoredMsckfInverseDepth,
        r => r,
    }
}

/// The residual system of one feature, with its feature eliminated.
#[derive(Debug)]
pub struct FeatureSystem {
    /// The derivative by the state, its columns laid out by `x_order`.
    pub h_x: Matrix,
    /// The residual.
    pub res: Vec<Double>,
    /// The variables of the columns, none twice.
    pub x_order: Vec<(i32, usize)>,
    /// The normalized size of the residual.
    pub chi2: Double,
    /// The largest size that is used.
    pub threshold: Double,
}

impl FeatureSystem {
    /// Whether shapes and lists agree.
    pub open spec fn wf(&self) -> bool {
        &&& self.h_x.shaped(
            self.res@.len() as int,
            column(self.x_order@, self.x_order@.len() as int),
        )
        &&& self.x_order@.no_duplicates()
    }

    /// Whether the residual is too large.
    pub open spec fn rejected(&self) -> bool {
        self.threshold.spec_lt(self.chi2)
    }
}

/// The stacked residual system of all features that are used.
#[derive(Debug)]
pub struct StackedSystem {
    /// The derivative by the state.
    pub h: Matrix,
    /// The residual.
    pub res: Vec<Double>,
    /// The variables of the columns.
    pub order: Vec<(i32, usize)>,
}

/// The rows of the first `k` systems, without the rejected ones.
pub open spec fn rows_before(systems: Seq<FeatureSystem>, k: int) -> int
    decreases k,
{
    if k <= 0 {
        0
    } else if systems[k - 1].rejected() {
        rows_before(systems, k - 1)
    } else {
        rows_before(systems, k - 1) + systems[k - 1].res@.len()
    }
}

/// More systems have no fewer rows.
proof fn lemma_rows_monotonic(systems: Seq<FeatureSystem>, i: int, j: int)
    requires
        0 <= i <= j <= systems.len(),
    ensures
        0 <= rows_before(systems, i) <= rows_before(systems, j),
        i < j && !systems[i].rejected() ==> rows_before(systems, i) + systems[i].res@.len()
            <= rows_before(systems, j),
    decreases j,
{
    if i < j {
        lemma_rows_monotonic(systems, i, j - 1);
    } else if i > 0 {
        lemma_rows_monotonic(systems, i - 1, i - 1);
    }
}

/// The variables of the first `k` systems, without the rejected ones.
pub open spec fn runs_used(systems: Seq<FeatureSystem>, k: int) -> Seq<Run>
    decreases k,
{
    if k <= 0 {
        seq![]
    } else if systems[k - 1].rejected() {
        runs_used(systems, k - 1)
    } else {
        runs_used(systems, k - 1) + systems[k - 1].x_order@
    }
}

/// The variables of the stacked system.
pub open spec fn stacked_order(systems: Seq<FeatureSystem>) -> Seq<Run> {
    distinct(runs_used(systems, systems.len() as int))
}

/// The entry of a stack for row `i` of system `k` and column `j` of a variable.
pub open spec fn stack_at(
    h: &Matrix,
    systems: Seq<FeatureSystem>,
    order: Seq<Run>,
    k: int,
    i: int,
    run: Run,
    j: int,
) -> Double {
    h.at(rows_before(systems, k) + i, column_of(order, run) + j)
}

/// The entry of a system for row `i` and column `j` of a variable; zero for a
/// variable that it does not have.
pub open spec fn system_value(system: &FeatureSystem, i: int, run: Run, j: int) -> Double {
    if system.x_order@.contains(run) {
        system.h_x.at(i, column_of(system.x_order@, run) + j)
    } else {
        Double { bits: 0 }
    }
}

/// Whether a stack holds every system that is not rejected, row after row, each
/// derivative in the columns of its variable and zeros elsewhere.
pub open spec fn stacks(stack: &StackedSystem, systems: Seq<FeatureSystem>) -> bool {
    let order = stacked_order(systems);
    let n = systems.len() as int;
    &&& stack.order@ == order
    &&& stack.h.shaped(rows_before(systems, n), column(order, order.len() as int))
    &&& stack.res@.len() == rows_before(systems, n)
    &&& forall|k: int, i: int, p: int, j: int|
        0 <= k < n && !systems[k].rejected() && 0 <= i < systems[k].res@.len() && 0 <= p
            < order.len() && 0 <= j < order[p].1 ==> #[trigger] stack_at(
            &stack.h,
            systems,
            order,
            k,
            i,
            order[p],
            j,
        ) == system_value(&systems[k], i, order[p], j)
    &&& forall|k: int|
        0 <= k < n && !(#[trigger] systems[k]).rejected() ==> stack.res@.subrange(
            rows_before(systems, k),
            rows_before(systems, k) + systems[k].res@.len(),
        ) == systems[k].res@
}

/// The variables of the systems that are not rejected, each where it first comes up.
fn used_columns(systems: &Vec<FeatureSystem>) -> (order: Vec<(i32, usize)>)
    ensures
        order@ == stacked_order(systems@),
{
    let mut order: Vec<(i32, usize)> = Vec::new();
    let ghost mut seen: Seq<Run> = Seq::empty();
    assert(order@ =~= distinct(seen));
    let mut k: usize = 0;
    while k < systems.len()
        invariant
            k <= systems@.len(),
            seen == runs_used(systems@, k as int),
            order@ == distinct(seen),
        decreases systems@.len() - k,
    {
        if !systems[k].threshold.lt(systems[k].chi2) {
            let list = &systems[k].x_order;
            let ghost start = seen;
            assert(seen =~= start + list@.take(0));
            let mut v: usize = 0;
            while v < list.len()
                invariant
                    v <= list@.len(),
                    seen == start + list@.take(v as int),
                    order@ == distinct(seen),
                decreases list@.len() - v,
            {
                let run = list[v];
                register(&mut order, run);
                proof {
                    lemma_distinct_push(seen, run);
                    seen = seen.push(run);
                    assert(seen =~= start + list@.take(v + 1));
                }
                v += 1;
            }
            assert(seen =~= start + list@) by {
                assert(list@.take(v as int) =~= list@);
            }
        }
        k += 1;
    }
    order
}

/// The variables of a used system are among those of the stack.
proof fn lemma_used(systems: Seq<FeatureSystem>, k: int, n: int)
    requires
        0 <= k < n <= systems.len(),
        !systems[k].rejected(),
    ensures
        forall|v: int|
            0 <= v < systems[k].x_order@.len() ==> runs_used(systems, n).contains(
                #[trigger] systems[k].x_order@[v],
            ),
    decreases n,
{
    let list = systems[k].x_order@;
    if k < n - 1 {
        lemma_used(systems, k, n - 1);
        assert forall|v: int| 0 <= v < list.len() implies runs_used(systems, n).contains(
            #[trigger] list[v],
        ) by {
            let before = runs_used(systems, n - 1);
            assert(before.contains(list[v]));
            let i = choose|i: int| 0 <= i < before.len() && before[i] == list[v];
            assert(runs_used(systems, n)[i] == list[v]);
        }
    } else {
        assert forall|v: int| 0 <= v < list.len() implies runs_used(systems, n).contains(
            #[trigger] list[v],
        ) by {
            assert(runs_used(systems, n)[runs_used(systems, k).len() + v] == list[v]);
        }
    }
}

/// Stacks the residual systems of the features whose residual is not too large;
/// the features of the others are marked for deletion. There is no stack
/// without rows.
pub fn stack_systems(features: &mut Vec<Feature>, systems: &Vec<FeatureSystem>) -> (stack: Option<
    StackedSystem,
>)
    requires
        old(features)@.len() == systems@.len(),
        forall|k: int| 0 <= k < systems@.len() ==> (#[trigger] systems@[k]).wf(),
        rows_before(systems@, systems@.len() as int) <= usize::MAX,
        column(stacked_order(systems@), stacked_order(systems@).len() as int) <= usize::MAX,
        rows_before(systems@, systems@.len() as int) * column(
            stacked_order(systems@),
            stacked_order(systems@).len() as int,
        ) <= usize::MAX,
    ensures
        final(features)@.len() == old(features)@.len(),
        forall|k: int|
            0 <= k < systems@.len() ==> #[trigger] final(features)@[k] == (if systems@[k].rejected() {
                Feature { to_delete: true, ..old(features)@[k] }
            } else {
                old(features)@[k]
            }),
        match stack {
            Some(s) => rows_before(systems@, systems@.len() as int) > 0 && stacks(&s, systems@),
            None => rows_before(systems@, systems@.len() as int) == 0,
        },
{
    let n: usize = systems.len();
    let mut total: usize = 0;
    let mut k: usize = 0;
    while k < n
        invariant
            k <= n,
            n == systems@.len(),
            rows_before(systems@, n as int) <= usize::MAX,
            total == rows_before(systems@, k as int),
            features@.len() == n,
            forall|q: int|
                0 <= q < n ==> #[trigger] features@[q] == (if q < k && systems@[q].rejected() {
                    Feature { to_delete: true, ..old(features)@[q] }
                } else {
                    old(features)@[q]
                }),
        decreases n - k,
    {
        proof {
            lemma_rows_monotonic(systems@, k as int, n as int);
        }
        if systems[k].threshold.lt(systems[k].chi2) {
            features[k].to_delete = true;
        } else {
            total += systems[k].res.len();
        }
        k += 1;
    }
    if total == 0 {
        return None;
    }
    let order = used_columns(systems);
    Some(fill_stack(systems, order, total))
}

/// Fills the stack of the systems that are not rejected.
fn fill_stack(systems: &Vec<FeatureSystem>, order: Vec<(i32, usize)>, total: usize) -> (stack:
    StackedSystem)
    requires
        forall|k: int| 0 <= k < systems@.len() ==> (#[trigger] systems@[k]).wf(),
        order@ == stacked_order(systems@),
        total == rows_before(systems@, systems@.len() as int),
        column(order@, order@.len() as int) <= usize::MAX,
        total * column(order@, order@.len() as int) <= usize::MAX,
    ensures
        stacks(&stack, systems@),
{
    let n: usize = systems.len();
    let ghost runs = order@;
    proof {
        lemma_distinct(runs_used(systems@, n as int));
    }
    let cols = hx_col(order.len(), &order);
    let mut h = Matrix::filled(total, cols, Double::zero());
    let mut res: Vec<Double> = Vec::new();
    let mut k: usize = 0;
    assert forall|q: int, i: int, p: int, j: int|
        0 <= q < n && !systems@[q].rejected() && 0 <= i < systems@[q].res@.len() && 0 <= p
            < runs.len() && 0 <= j < runs[p].1 implies #[trigger] stack_at(
        &h,
        systems@,
        runs,
        q,
        i,
        runs[p],
        j,
    ) == (Double { bits: 0 }) by {
        lemma_rows_monotonic(systems@, q, n as int);
        lemma_index_of(runs, p);
        lemma_column_monotonic(runs, p, runs.len() as int);
        assert(h.has(rows_before(systems@, q) + i, column(runs, p) + j));
    }
    while k < n
        invariant
            k <= n,
            n == systems@.len(),
            forall|q: int| 0 <= q < n ==> (#[trigger] systems@[q]).wf(),
            runs == order@,
            runs == stacked_order(systems@),
            runs.no_duplicates(),
            total == rows_before(systems@, n as int),
            cols == column(runs, runs.len() as int),
            h.shaped(total as int, cols as int),
            res@.len() == rows_before(systems@, k as int),
            forall|q: int, i: int, p: int, j: int|
                0 <= q < n && !systems@[q].rejected() && 0 <= i < systems@[q].res@.len() && 0 <= p
                    < runs.len() && 0 <= j < runs[p].1 ==> #[trigger] stack_at(
                    &h,
                    systems@,
                    runs,
                    q,
                    i,
                    runs[p],
                    j,
                ) == (if q < k {
                    system_value(&systems@[q], i, runs[p], j)
                } else {
                    Double { bits: 0 }
                }),
            forall|q: int|
                0 <= q < k && !(#[trigger] systems@[q]).rejected() ==> res@.subrange(
                    rows_before(systems@, q),
                    rows_before(systems@, q) + systems@[q].res@.len(),
                ) == systems@[q].res@,
        decreases n - k,
    {
        let system = &systems[k];
        assert(systems@[k as int].wf());
        proof {
            lemma_rows_monotonic(systems@, k as int, n as int);
        }
        if !system.threshold.lt(system.chi2) {
            let row0: usize = res.len();
            place_system(system, row0, &order, &mut h, Ghost(systems@), Ghost(k as int));
            append_residual(&mut res, &system.res, Ghost(systems@), Ghost(k as int));
        }
        k += 1;
    }
    StackedSystem { h, res, order }
}

/// Appends the residual of a system.
fn append_residual(
    res: &mut Vec<Double>,
    more: &Vec<Double>,
    Ghost(systems): Ghost<Seq<FeatureSystem>>,
    Ghost(k): Ghost<int>,
)
    requires
        0 <= k < systems.len(),
        !systems[k].rejected(),
        more@ == systems[k].res@,
        old(res)@.len() == rows_before(systems, k),
        forall|q: int|
            0 <= q < k && !(#[trigger] systems[q]).rejected() ==> old(res)@.subrange(
                rows_before(systems, q),
                rows_before(systems, q) + systems[q].res@.len(),
            ) == systems[q].res@,
    ensures
        final(res)@.len() == rows_before(systems, k + 1),
        forall|q: int|
            0 <= q < k + 1 && !(#[trigger] systems[q]).rejected() ==> final(res)@.subrange(
                rows_before(systems, q),
                rows_before(systems, q) + systems[q].res@.len(),
            ) == systems[q].res@,
{
    let ghost before = res@;
    let mut i: usize = 0;
    assert(res@ =~= before + more@.take(0));
    while i < more.len()
        invariant
            i <= more@.len(),
            res@ == before + more@.take(i as int),
        decreases more@.len() - i,
    {
        res.push(more[i]);
        assert(res@ =~= before + more@.take(i + 1));
        i += 1;
    }
    assert(more@.take(i as int) =~= more@);
    assert forall|q: int| 0 <= q < k + 1 && !(#[trigger] systems[q]).rejected() implies res@.subrange(
        rows_before(systems, q),
        rows_before(systems, q) + systems[q].res@.len(),
    ) == systems[q].res@ by {
        lemma_rows_monotonic(systems, q, k);
        if q < k {
            assert(res@.subrange(
                rows_before(systems, q),
                rows_before(systems, q) + systems[q].res@.len(),
            ) =~= before.subrange(
                rows_before(systems, q),
                rows_before(systems, q) + systems[q].res@.len(),
            ));
        } else {
            assert(res@.subrange(
                rows_before(systems, q),
                rows_before(systems, q) + systems[q].res@.len(),
            ) =~= more@);
        }
    }
}

/// Writes the derivatives of one system to its rows of the stack.
fn place_system(
    system: &FeatureSystem,
    row0: usize,
    order: &Vec<(i32, usize)>,
    h: &mut Matrix,
    Ghost(systems): Ghost<Seq<FeatureSystem>>,
    Ghost(k): Ghost<int>,
)
    requires
        0 <= k < systems.len(),
        *system == systems[k],
        forall|q: int| 0 <= q < systems.len() ==> (#[trigger] systems[q]).wf(),
        !system.rejected(),
        row0 == rows_before(systems, k),
        order@ == stacked_order(systems),
        order@.no_duplicates(),
        column(order@, order@.len() as int) <= usize::MAX,
        old(h).shaped(
            rows_before(systems, systems.len() as int),
            column(order@, order@.len() as int),
        ),
        forall|q: int, i: int, p: int, j: int|
            0 <= q < systems.len() && !systems[q].rejected() && 0 <= i < systems[q].res@.len() && 0
                <= p < order@.len() && 0 <= j < order@[p].1 ==> #[trigger] stack_at(
                old(h),
                systems,
                order@,
                q,
                i,
                order@[p],
                j,
            ) == (if q < k {
                system_value(&systems[q], i, order@[p], j)
            } else {
                Double { bits: 0 }
            }),
    ensures
        final(h).shaped(old(h).height(), old(h).width()),
        forall|q: int, i: int, p: int, j: int|
            0 <= q < systems.len() && !systems[q].rejected() && 0 <= i < systems[q].res@.len() && 0
                <= p < order@.len() && 0 <= j < order@[p].1 ==> #[trigger] stack_at(
                final(h),
                systems,
                order@,
                q,
                i,
                order@[p],
                j,
            ) == (if q < k + 1 {
                system_value(&systems[q], i, order@[p], j)
            } else {
                Double { bits: 0 }
            }),
{
    let ghost runs = order@;
    let ghost list = system.x_order@;
    let ghost n = systems.len() as int;
    let ghost first = *h;
    proof {
        assert(systems[k].wf());
        lemma_used(systems, k, n);
        lemma_distinct(runs_used(systems, n));
        lemma_rows_monotonic(systems, k, n);
        lemma_rows_monotonic(systems, 0, k);
        h.lemma_shape();
        system.h_x.lemma_shape();
    }
    let rows: usize = system.res.len();
    let mut src: usize = 0;
    let mut v: usize = 0;
    while v < system.x_order.len()
        invariant
            v <= list.len(),
            0 <= k < n,
            n == systems.len(),
            *system == systems[k],
            !system.rejected(),
            list == system.x_order@,
            list.no_duplicates(),
            system.h_x.shaped(rows as int, column(list, list.len() as int)),
            rows == system.res@.len(),
            column(list, list.len() as int) <= usize::MAX,
            row0 == rows_before(systems, k),
            row0 + rows <= first.height(),
            runs == order@,
            runs.no_duplicates(),
            first.shaped(rows_before(systems, n), column(runs, runs.len() as int)),
            column(runs, runs.len() as int) <= usize::MAX,
            first.height() <= usize::MAX,
            forall|w: int| 0 <= w < list.len() ==> runs.contains(#[trigger] list[w]),
            src == column(list, v as int),
            h.shaped(first.height(), first.width()),
            forall|q: int, i: int, p: int, j: int|
                0 <= q < n && !systems[q].rejected() && 0 <= i < systems[q].res@.len() && 0 <= p
                    < runs.len() && 0 <= j < runs[p].1 ==> #[trigger] stack_at(
                    h,
                    systems,
                    runs,
                    q,
                    i,
                    runs[p],
                    j,
                ) == (if q == k && list.take(v as int).contains(runs[p]) {
                    system.h_x.at(i, column_of(list, runs[p]) + j)
                } else {
                    stack_at(&first, systems, runs, q, i, runs[p], j)
                }),
        decreases list.len() - v,
    {
        let run = system.x_order[v];
        assert(runs.contains(list[v as int]));
        let dst: usize = run_column(order, run);
        let ghost place = runs.index_of(run);
        proof {
            lemma_column_monotonic(list, v as int, list.len() as int);
            lemma_column_monotonic(runs, place, runs.len() as int);
            lemma_column_monotonic(list, v + 1, list.len() as int);
            lemma_index_of(list, v as int);
        }
        let ghost before = *h;
        copy_block(&system.h_x, src, h, row0, dst, rows, run.1);
        assert forall|q: int, i: int, p: int, j: int|
            0 <= q < n && !systems[q].rejected() && 0 <= i < systems[q].res@.len() && 0 <= p
                < runs.len() && 0 <= j < runs[p].1 implies #[trigger] stack_at(
            h,
            systems,
            runs,
            q,
            i,
            runs[p],
            j,
        ) == (if q == k && list.take(v + 1).contains(runs[p]) {
            system.h_x.at(i, column_of(list, runs[p]) + j)
        } else {
            stack_at(&first, systems, runs, q, i, runs[p], j)
        }) by {
            lemma_rows_monotonic(systems, q, n);
            lemma_rows_monotonic(systems, 0, q);
            lemma_index_of(runs, p);
            lemma_column_monotonic(runs, p, runs.len() as int);
            lemma_column_monotonic(runs, 0, p);
            let row = rows_before(systems, q) + i;
            let col = column(runs, p) + j;
            assert(before.has(row, col));
            if q < k {
                lemma_rows_monotonic(systems, q, k);
            } else if k < q {
                lemma_rows_monotonic(systems, k, q);
            }
            if p < place {
                lemma_column_monotonic(runs, p, place);
            } else if place < p {
                lemma_column_monotonic(runs, place, p);
            }
            let inside = row0 <= row < row0 + rows && dst <= col < dst + run.1;
            assert(inside <==> q == k && p == place);
            assert(stack_at(h, systems, runs, q, i, runs[p], j) == h.at(row, col));
            assert(stack_at(&before, systems, runs, q, i, runs[p], j) == before.at(row, col));
            assert(p == place ==> runs[p] == run && column_of(list, runs[p]) == src);
            let more = list.take(v + 1);
            assert(more =~= list.take(v as int).push(run));
            if list.take(v as int).contains(runs[p]) {
                let w = choose|w: int| 0 <= w < v && list.take(v as int)[w] == runs[p];
                assert(more[w] == runs[p]);
            }
            if p == place {
                assert(more[v as int] == runs[p]);
            } else if list.take(v + 1).contains(runs[p]) {
                let w = choose|w: int| 0 <= w < more.len() && more[w] == runs[p];
                assert(w < v);
                assert(list.take(v as int)[w] == runs[p]);
            }
        }
        src += run.1;
        v += 1;
    }
    assert forall|q: int, i: int, p: int, j: int|
        0 <= q < n && !systems[q].rejected() && 0 <= i < systems[q].res@.len() && 0 <= p
            < runs.len() && 0 <= j < runs[p].1 implies #[trigger] stack_at(
        h,
        systems,
        runs,
        q,
        i,
        runs[p],
        j,
    ) == (if q < k + 1 {
        system_value(&systems[q], i, runs[p], j)
    } else {
        Double { bits: 0 }
    }) by {
        assert(list.take(v as int) =~= list);
        assert(stack_at(&first, systems, runs, q, i, runs[p], j) == (if q < k {
            system_value(&systems[q], i, runs[p], j)
        } else {
            Double { bits: 0 }
        }));
    }
}

/// Copies columns of one matrix to a block of another.
fn copy_block(
    from: &Matrix,
    src: usize,
    to: &mut Matrix,
    top: usize,
    left: usize,
    rows: usize,
    cols: usize,
)
    requires
        from.wf(),
        old(to).wf(),
        rows <= from.height(),
        src + cols <= from.width(),
        top + rows <= old(to).height(),
        left + cols <= old(to).width(),
    ensures
        final(to).shaped(old(to).height(), old(to).width()),
        forall|r: int, c: int|
            old(to).has(r, c) ==> #[trigger] final(to).at(r, c) == (if top <= r < top + rows && left
                <= c < left + cols {
                from.at(r - top, src + c - left)
            } else {
                old(to).at(r, c)
            }),
{
    proof {
        from.lemma_shape();
        to.lemma_shape();
    }
    let mut i: usize = 0;
    while i < rows
        invariant
            i <= rows,
            from.wf(),
            rows <= from.height(),
            src + cols <= from.width() <= usize::MAX,
            top + rows <= old(to).height() <= usize::MAX,
            left + cols <= old(to).width() <= usize::MAX,
            to.shaped(old(to).height(), old(to).width()),
            forall|r: int, c: int|
                old(to).has(r, c) ==> #[trigger] to.at(r, c) == (if top <= r < top + i && left <= c
                    < left + cols {
                    from.at(r - top, src + c - left)
                } else {
                    old(to).at(r, c)
                }),
        decreases rows - i,
    {
        let mut j: usize = 0;
        while j < cols
            invariant
                i < rows,
                j <= cols,
                from.wf(),
                rows <= from.height(),
                src + cols <= from.width() <= usize::MAX,
                top + rows <= old(to).height() <= usize::MAX,
                left + cols <= old(to).width() <= usize::MAX,
                to.shaped(old(to).height(), old(to).width()),
                forall|r: int, c: int|
                    old(to).has(r, c) ==> #[trigger] to.at(r, c) == (if (top <= r < top + i && left
                        <= c < left + cols) || (r == top + i && left <= c < left + j) {
                        from.at(r - top, src + c - left)
                    } else {
                        old(to).at(r, c)
                    }),
            decreases cols - j,
        {
            let v = from.get(i, src + j);
            to.set(top + i, left + j, v);
            j += 1;
        }
        i += 1;
    }
}

/// The update with features of the window.
#[derive(Clone, Copy, Debug, PartialEq, Eq, Structural)]
pub struct UpdaterMsckf {
    /// The options.
    pub options: UpdaterOptions,
    /// How features are written down.
    pub rep_msckf: FeatRepresentation,
}

impl UpdaterMsckf {
    /// An updater for points in the world; `sigma_pix_sq` is the square of the
    /// options' pixel deviation.
    pub fn new(options: UpdaterOptions, sigma_pix_sq: Double) -> (u: UpdaterMsckf)
        ensures
            u.options == (UpdaterOptions { sigma_pix_sq, ..options }),
            u.rep_msckf is Global3D,
    {
        UpdaterMsckf {
            options: UpdaterOptions { sigma_pix_sq, ..options },
            rep_msckf: FeatRepresentation::Global3D,
        }
    }
}

} // verus!
