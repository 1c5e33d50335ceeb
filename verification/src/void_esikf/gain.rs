//! The gain of an iterated update, in information form.

use vstd::prelude::*;

use crate::algebra::{
    add_matrices, apply_inverse, dot, entries, inverse_of, inverts, is, lemma_dot_same,
    lemma_product, list_of, multiply, negate, negation, product, ring, row_of, sum_of, transform,
    unit, Ring,
};
use crate::arith::{apply_two, binary};
use crate::double::Double;
use crate::matrix::Matrix;
use crate::void_types::state::DIM_STATE;

verus! {

/// How much of the error a measurement sees: the inverse of the whole information
/// times the measurement's.
pub open spec fn seen_share(
    inv: spec_fn(int, int) -> Double,
    s: spec_fn(int, int) -> Double,
    op: Ring,
) -> spec_fn(int, int) -> Double {
    product(inv, s, op, DIM_STATE as int)
}

/// The correction of an estimate: against what the measurement says, and back to
/// the prior where the measurement does not see.
pub open spec fn corrected(
    inv: spec_fn(int, int) -> Double,
    s: spec_fn(int, int) -> Double,
    b: Seq<Double>,
    delta: Seq<Double>,
    op: Ring,
) -> Seq<Double> {
    let n = DIM_STATE as int;
    let rest = sum_of(unit(), negation(seen_share(inv, s, op)), op);
    Seq::new(
        n as nat,
        |i: int|
            (op.plus)(
                dot(row_of(inv, i), list_of(b), op, n).spec_neg(),
                dot(row_of(rest, i), list_of(delta), op, n).spec_neg(),
            ),
    )
}

/// The covariance after an update: less the share that the measurement sees.
pub open spec fn shrunk(
    cov: spec_fn(int, int) -> Double,
    inv: spec_fn(int, int) -> Double,
    s: spec_fn(int, int) -> Double,
    op: Ring,
) -> spec_fn(int, int) -> Double {
    let n = DIM_STATE as int;
    sum_of(cov, negation(product(seen_share(inv, s, op), cov, op, n)), op)
}

/// A row of a matrix that holds a formula, times a list.
proof fn lemma_row(m: &Matrix, f: spec_fn(int, int) -> Double, v: Seq<Double>, op: Ring, i: int)
    requires
        is(m, DIM_STATE as int, DIM_STATE as int, f),
        0 <= i < DIM_STATE,
    ensures
        dot(row_of(entries(m), i), list_of(v), op, DIM_STATE as int) == dot(
            row_of(f, i),
            list_of(v),
            op,
            DIM_STATE as int,
        ),
{
    assert forall|k: int| 0 <= k < DIM_STATE implies #[trigger] row_of(entries(m), i)(k) == row_of(
        f,
        i,
    )(k) by {
        assert(m.has(i, k));
        assert(m.at(i, k) == f(i, k));
    }
    lemma_dot_same(row_of(entries(m), i), list_of(v), row_of(f, i), list_of(v), op, DIM_STATE as int);
}

/// The correction of an estimate that is `delta` away from its prior, by a
/// measurement with information `s` and information vector `b`; `p_inv` is the
/// information of the prior. None where the information has no inverse.
pub fn correction<
    I: Fn(&Matrix) -> Option<Matrix>,
    P: Fn(Double, Double) -> Double,
    T: Fn(Double, Double) -> Double,
>(
    s: &Matrix,
    b: &Vec<Double>,
    p_inv: &Matrix,
    delta: &Vec<Double>,
    invert: &I,
    plus: &P,
    times: &T,
) -> (step: Option<Vec<Double>>)
    requires
        s.shaped(DIM_STATE as int, DIM_STATE as int),
        p_inv.shaped(DIM_STATE as int, DIM_STATE as int),
        b@.len() == DIM_STATE,
        delta@.len() == DIM_STATE,
        inverts(*invert),
        binary(*plus),
        binary(*times),
    ensures
        ({
            let op = ring(*plus, *times);
            let whole = sum_of(entries(s), entries(p_inv), op);
            match inverse_of(*invert, DIM_STATE as int, whole) {
                None => step is None,
                Some(x) => step matches Some(v) && v@ == corrected(
                    entries(&x),
                    entries(s),
                    b@,
                    delta@,
                    op,
                ),
            }
        }),
{
    let ghost op = ring(*plus, *times);
    let ghost n = DIM_STATE as int;
    let ghost whole = sum_of(entries(s), entries(p_inv), op);
    let sum = add_matrices(s, p_inv, plus);
    let inv = match apply_inverse(&sum, invert, Ghost(whole)) {
        None => {
            return None;
        },
        Some(x) => x,
    };
    let ghost e = entries(&(inverse_of(*invert, n, whole)->0));
    let kz = transform(&inv, b, plus, times);
    let kh = multiply(&inv, s, plus, times);
    let less = negate(&kh);
    let mut one = Matrix::filled(DIM_STATE, DIM_STATE, Double::zero());
    one.set_diagonal(0, DIM_STATE, Double::one());
    let rest = add_matrices(&one, &less, plus);
    let back = transform(&rest, delta, plus, times);
    let ghost r = sum_of(unit(), negation(seen_share(e, entries(s), op)), op);
    proof {
        assert(is(&inv, n, n, e));
        lemma_product(&kh, &inv, s, e, entries(s), op);
        assert(is(&rest, n, n, r)) by {
            assert forall|i: int, j: int| rest.has(i, j) implies #[trigger] rest.at(i, j) == r(i, j) by {
                assert(kh.has(i, j) && less.has(i, j) && one.has(i, j));
                assert(kh.at(i, j) == seen_share(e, entries(s), op)(i, j));
                assert(less.at(i, j) == kh.at(i, j).spec_neg());
            }
        }
    }
    let mut step: Vec<Double> = Vec::new();
    let mut i: usize = 0;
    while i < DIM_STATE
        invariant
            i <= DIM_STATE,
            n == DIM_STATE,
            kz@.len() == n,
            back@.len() == n,
            binary(*plus),
            op == ring(*plus, *times),
            step@.len() == i,
            forall|k: int|
                0 <= k < i ==> #[trigger] step@[k] == (op.plus)(
                    kz@[k].spec_neg(),
                    back@[k].spec_neg(),
                ),
        decreases DIM_STATE - i,
    {
        step.push(apply_two(plus, kz[i].neg(), back[i].neg()));
        i += 1;
    }
    proof {
        let c = corrected(e, entries(s), b@, delta@, op);
        assert forall|k: int| 0 <= k < n implies #[trigger] step@[k] == c[k] by {
            lemma_row(&inv, e, b@, op, k);
            lemma_row(&rest, r, delta@, op, k);
        }
        assert(step@ =~= c);
    }
    Some(step)
}

/// The covariance after an update by a measurement with information `s`. Where the
/// information has no inverse, the identity takes its place.
pub fn cov_update<
    I: Fn(&Matrix) -> Option<Matrix>,
    P: Fn(Double, Double) -> Double,
    T: Fn(Double, Double) -> Double,
>(p: &Matrix, s: &Matrix, p_inv: &Matrix, invert: &I, plus: &P, times: &T) -> (cov: Matrix)
    requires
        p.shaped(DIM_STATE as int, DIM_STATE as int),
        s.shaped(DIM_STATE as int, DIM_STATE as int),
        p_inv.shaped(DIM_STATE as int, DIM_STATE as int),
        inverts(*invert),
        binary(*plus),
        binary(*times),
    ensures
        ({
            let op = ring(*plus, *times);
            let n = DIM_STATE as int;
            let whole = sum_of(entries(s), entries(p_inv), op);
            let inv = match inverse_of(*invert, n, whole) {
                Some(x) => entries(&x),
                None => unit(),
            };
            is(&cov, n, n, shrunk(entries(p), inv, entries(s), op))
        }),
{
    let ghost op = ring(*plus, *times);
    let ghost n = DIM_STATE as int;
    let ghost whole = sum_of(entries(s), entries(p_inv), op);
    let sum = add_matrices(s, p_inv, plus);
    let ghost e = match inverse_of(*invert, n, whole) {
        Some(x) => entries(&x),
        None => unit(),
    };
    let inv = match apply_inverse(&sum, invert, Ghost(whole)) {
        Some(x) => x,
        None => {
            let mut one = Matrix::filled(DIM_STATE, DIM_STATE, Double::zero());
            one.set_diagonal(0, DIM_STATE, Double::one());
            one
        },
    };
    assert(is(&inv, n, n, e));
    let kh = multiply(&inv, s, plus, times);
    let part = multiply(&kh, p, plus, times);
    let less = negate(&part);
    let cov = add_matrices(p, &less, plus);
    proof {
        lemma_product(&kh, &inv, s, e, entries(s), op);
        lemma_product(&part, &kh, p, seen_share(e, entries(s), op), entries(p), op);
        let c = shrunk(entries(p), e, entries(s), op);
        assert forall|i: int, j: int| cov.has(i, j) implies #[trigger] cov.at(i, j) == c(i, j) by {
            assert(part.has(i, j) && less.has(i, j));
            assert(part.at(i, j) == product(
                seen_share(e, entries(s), op),
                entries(p),
                op,
                n,
            )(i, j));
            assert(less.at(i, j) == part.at(i, j).spec_neg());
        }
    }
    cov
}

} // verus!
