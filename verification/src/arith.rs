//! Arithmetic that a caller hands in.
//!
//! Where an algorithm is a fixed arrangement of sums and products, it takes the
//! operations as functions. All that is asked of them is that they can be called
//! on every number and that the same numbers always give the same result.

use vstd::prelude::*;

use crate::double::Double;

verus! {

/// Whether an operation on two numbers always has one result.
pub open spec fn binary<F: Fn(Double, Double) -> Double>(f: F) -> bool {
    &&& forall|a: Double, b: Double| #[trigger] call_requires(f, (a, b))
    &&& forall|a: Double, b: Double, r: Double, s: Double| #[trigger]
        call_ensures(f, (a, b), r) && #[trigger] call_ensures(f, (a, b), s) ==> r == s
}

/// The result of an operation on two numbers.
pub open spec fn of_two<F: Fn(Double, Double) -> Double>(f: F, a: Double, b: Double) -> Double {
    choose|r: Double| call_ensures(f, (a, b), r)
}

/// Whether an operation on one number always has one result.
pub open spec fn unary<F: Fn(Double) -> Double>(f: F) -> bool {
    &&& forall|a: Double| #[trigger] call_requires(f, (a,))
    &&& forall|a: Double, r: Double, s: Double| #[trigger]
        call_ensures(f, (a,), r) && #[trigger] call_ensures(f, (a,), s) ==> r == s
}

/// The result of an operation on one number.
pub open spec fn of_one<F: Fn(Double) -> Double>(f: F, a: Double) -> Double {
    choose|r: Double| call_ensures(f, (a,), r)
}

/// Applies an operation to two numbers.
pub fn apply_two<F: Fn(Double, Double) -> Double>(f: &F, a: Double, b: Double) -> (r: Double)
    requires
        binary(*f),
    ensures
        r == of_two(*f, a, b),
{
    let r = f(a, b);
    assert(call_ensures(*f, (a, b), r));
    assert(call_ensures(*f, (a, b), of_two(*f, a, b)));
    r
}

/// Applies an operation to one number.
pub fn apply_one<F: Fn(Double) -> Double>(f: &F, a: Double) -> (r: Double)
    requires
        unary(*f),
    ensures
        r == of_one(*f, a),
{
    let r = f(a);
    assert(call_ensures(*f, (a,), r));
    assert(call_ensures(*f, (a,), of_one(*f, a)));
    r
}

/// Applies an operation to the numbers of two vectors, place by place.
pub open spec fn of_vectors<F: Fn(Double, Double) -> Double>(
    f: F,
    a: Seq<Double>,
    b: Seq<Double>,
) -> Seq<Double> {
    Seq::new(a.len(), |i: int| of_two(f, a[i], b[i]))
}

/// Applies an operation to two vectors of three, place by place.
pub fn apply_vectors<F: Fn(Double, Double) -> Double>(f: &F, a: [Double; 3], b: [Double; 3]) -> (r: [Double; 3])
    requires
        binary(*f),
    ensures
        r@ == of_vectors(*f, a@, b@),
{
    let r = [apply_two(f, a[0], b[0]), apply_two(f, a[1], b[1]), apply_two(f, a[2], b[2])];
    assert(r@ =~= of_vectors(*f, a@, b@));
    r
}

/// Whether the distance of two points always is the same.
pub open spec fn gauges<D: Fn([Double; 3], [Double; 3]) -> Double>(distance: D) -> bool {
    &&& forall|p: [Double; 3], q: [Double; 3]| #[trigger] call_requires(distance, (p, q))
    &&& forall|p: [Double; 3], q: [Double; 3], a: Double, b: Double| #[trigger]
        call_ensures(distance, (p, q), a) && #[trigger] call_ensures(distance, (p, q), b) ==> a == b
}

/// The distance of two points.
pub open spec fn gauged<D: Fn([Double; 3], [Double; 3]) -> Double>(
    distance: D,
    p: [Double; 3],
    q: [Double; 3],
) -> Double {
    choose|r: Double| call_ensures(distance, (p, q), r)
}

/// The distance of two points.
pub fn apply_gauge<D: Fn([Double; 3], [Double; 3]) -> Double>(
    distance: &D,
    p: [Double; 3],
    q: [Double; 3],
) -> (r: Double)
    requires
        gauges(*distance),
    ensures
        r == gauged(*distance, p, q),
{
    let r = distance(p, q);
    assert(call_ensures(*distance, (p, q), r));
    assert(call_ensures(*distance, (p, q), gauged(*distance, p, q)));
    r
}

/// Whether the length of a vector always is the same.
pub open spec fn lengths<L: Fn([Double; 3]) -> Double>(length: L) -> bool {
    &&& forall|v: [Double; 3]| #[trigger] call_requires(length, (v,))
    &&& forall|v: [Double; 3], a: Double, b: Double| #[trigger]
        call_ensures(length, (v,), a) && #[trigger] call_ensures(length, (v,), b) ==> a == b
}

/// Whether a vector has a length.
pub open spec fn has_length<L: Fn([Double; 3]) -> Double>(length: L, v: Seq<Double>, r: Double) -> bool {
    exists|a: [Double; 3]| a@ == v && #[trigger] call_ensures(length, (a,), r)
}

/// The length of a vector.
pub open spec fn length_of<L: Fn([Double; 3]) -> Double>(length: L, v: Seq<Double>) -> Double {
    choose|r: Double| has_length(length, v, r)
}

/// The length of a vector.
pub fn apply_length<L: Fn([Double; 3]) -> Double>(length: &L, v: [Double; 3]) -> (r: Double)
    requires
        lengths(*length),
    ensures
        r == length_of(*length, v@),
{
    let r = length(v);
    assert(call_ensures(*length, (v,), r));
    assert(has_length(*length, v@, r));
    assert(r == length_of(*length, v@)) by {
        let s = length_of(*length, v@);
        assert(has_length(*length, v@, s));
        let a = choose|a: [Double; 3]| a@ == v@ && #[trigger] call_ensures(*length, (a,), s);
        assert(a@ == v@ && call_ensures(*length, (a,), s));
        assert(a =~= v);
    }
    r
}

/// Whether a count can be had as a number, always the same.
pub open spec fn counts<N: Fn(usize) -> Double>(number: N) -> bool {
    &&& forall|n: usize| #[trigger] call_requires(number, (n,))
    &&& forall|n: usize, a: Double, b: Double| #[trigger]
        call_ensures(number, (n,), a) && #[trigger] call_ensures(number, (n,), b) ==> a == b
}

/// A count as a number.
pub open spec fn counted<N: Fn(usize) -> Double>(number: N, n: usize) -> Double {
    choose|r: Double| call_ensures(number, (n,), r)
}

/// A count as a number.
pub fn apply_count<N: Fn(usize) -> Double>(number: &N, n: usize) -> (r: Double)
    requires
        counts(*number),
    ensures
        r == counted(*number, n),
{
    let r = number(n);
    assert(call_ensures(*number, (n,), r));
    assert(call_ensures(*number, (n,), counted(*number, n)));
    r
}

/// Whether an index can be had as a number, always the same.
pub open spec fn numbers<N: Fn(i64) -> Double>(number: N) -> bool {
    &&& forall|i: i64| #[trigger] call_requires(number, (i,))
    &&& forall|i: i64, a: Double, b: Double| #[trigger]
        call_ensures(number, (i,), a) && #[trigger] call_ensures(number, (i,), b) ==> a == b
}

/// An index as a number.
pub open spec fn number_of<N: Fn(i64) -> Double>(number: N, i: i64) -> Double {
    choose|r: Double| call_ensures(number, (i,), r)
}

/// An index as a number.
pub fn apply_number<N: Fn(i64) -> Double>(number: &N, i: i64) -> (r: Double)
    requires
        numbers(*number),
    ensures
        r == number_of(*number, i),
{
    let r = number(i);
    assert(call_ensures(*number, (i,), r));
    assert(call_ensures(*number, (i,), number_of(*number, i)));
    r
}

} // verus!
