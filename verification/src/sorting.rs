//! Sorting that keeps the order of equal items.

use vstd::prelude::*;

verus! {

/// Whether `order` lists each of the first `n` places once.
pub open spec fn permutes(order: Seq<int>, n: int) -> bool {
    &&& order.len() == n
    &&& forall|i: int| 0 <= i < n ==> 0 <= #[trigger] order[i] < n
    &&& forall|i: int, j: int|
        0 <= i < n && 0 <= j < n && i != j ==> #[trigger] order[i] != #[trigger] order[j]
}

/// Whether the keys increase along `order`, and equal keys keep their places.
pub open spec fn ascends(keys: Seq<int>, order: Seq<int>) -> bool {
    forall|i: int, j: int|
        0 <= i < j < order.len() ==> keys[#[trigger] order[i]] < keys[#[trigger] order[j]] || (
        keys[order[i]] == keys[order[j]] && order[i] < order[j])
}

/// Whether `order` is the stable ascending order of the keys.
pub open spec fn stable_order(keys: Seq<int>, order: Seq<int>) -> bool {
    permutes(order, keys.len() as int) && ascends(keys, order)
}

/// The items at the listed places.
pub open spec fn arranged<T>(items: Seq<T>, order: Seq<int>) -> Seq<T> {
    Seq::new(order.len(), |i: int| items[order[i]])
}

/// The keys as unbounded integers.
pub open spec fn key_values(keys: Seq<i128>) -> Seq<int> {
    Seq::new(keys.len(), |i: int| keys[i] as int)
}

/// Sorts the items by their keys, ascending; items with equal keys keep their order.
pub fn sort_by_keys<T>(items: &mut Vec<T>, keys: &mut Vec<i128>)
    requires
        old(keys)@.len() == old(items)@.len(),
    ensures
        exists|order: Seq<int>|
            stable_order(key_values(old(keys)@), order) && final(items)@ == #[trigger] arranged(
                old(items)@,
                order,
            ) && final(keys)@ == arranged(old(keys)@, order),
{
    let n: usize = items.len();
    let ghost first = items@;
    let ghost first_keys = keys@;
    let ghost values = key_values(keys@);
    let ghost mut order: Seq<int> = Seq::new(n as nat, |i: int| i);
    assert(items@ =~= arranged(first, order));
    assert(keys@ =~= arranged(first_keys, order));
    let mut i: usize = 0;
    while i < n
        invariant
            i <= n,
            first.len() == n,
            first_keys.len() == n,
            values == key_values(first_keys),
            permutes(order, n as int),
            items@ == arranged(first, order),
            keys@ == arranged(first_keys, order),
            ascends(values, order.take(i as int)),
            forall|k: int| i <= k < n ==> #[trigger] order[k] == k,
            forall|k: int| 0 <= k < i ==> #[trigger] order[k] < i,
        decreases n - i,
    {
        let key: i128 = keys[i];
        let mut j: usize = 0;
        while j < i && keys[j] <= key
            invariant
                i < n,
                j <= i,
                n == first.len(),
                first_keys.len() == n,
                order.len() == n,
                keys@ == arranged(first_keys, order),
                key == keys@[i as int],
                forall|k: int| 0 <= k < j ==> #[trigger] keys@[k] <= key,
            decreases i - j,
        {
            j += 1;
        }
        let ghost before = order;
        assert forall|k: int| 0 <= k < n implies values[#[trigger] before[k]] == keys@[k] by {}
        let item = items.remove(i);
        let moved = keys.remove(i);
        items.insert(j, item);
        keys.insert(j, moved);
        proof {
            order = before.remove(i as int).insert(j as int, before[i as int]);
            lemma_moved(values, before, i as int, j as int);
            assert(items@ =~= arranged(first, order));
            assert(keys@ =~= arranged(first_keys, order));
            assert(order.take(i + 1) =~= before.take(i as int).insert(j as int, i as int));
        }
        i += 1;
    }
    assert(order.take(n as int) =~= order);
    assert(stable_order(values, order));
}

/// Moving place `i` to the first place with a larger key keeps the order so far
/// ascending.
proof fn lemma_moved(values: Seq<int>, before: Seq<int>, i: int, j: int)
    requires
        permutes(before, values.len() as int),
        0 <= j <= i < values.len(),
        ascends(values, before.take(i)),
        before[i] == i,
        forall|k: int| i <= k < values.len() ==> #[trigger] before[k] == k,
        forall|k: int| 0 <= k < i ==> #[trigger] before[k] < i,
        forall|k: int| 0 <= k < j ==> values[#[trigger] before[k]] <= values[i],
        j < i ==> values[i] < values[before[j]],
    ensures
        ({
            let after = before.remove(i).insert(j, before[i]);
            &&& permutes(after, values.len() as int)
            &&& ascends(values, before.take(i).insert(j, i))
            &&& forall|k: int| i < k < values.len() ==> #[trigger] after[k] == k
            &&& forall|k: int| 0 <= k <= i ==> #[trigger] after[k] < i + 1
        }),
{
    let n = values.len() as int;
    let after = before.remove(i).insert(j, before[i]);
    let source = |k: int|
        if k < j {
            k
        } else if k == j {
            i
        } else if k <= i {
            k - 1
        } else {
            k
        };
    assert forall|k: int| 0 <= k < n implies #[trigger] after[k] == before[source(k)] by {}
    assert forall|a: int, b: int| 0 <= a < n && 0 <= b < n && a != b implies #[trigger] after[a]
        != #[trigger] after[b] by {
        assert(source(a) != source(b));
        assert(before[source(a)] != before[source(b)]);
    }
    let head = before.take(i);
    let grown = head.insert(j, i);
    assert forall|a: int, b: int| 0 <= a < b < grown.len() implies values[#[trigger] grown[a]]
        < values[#[trigger] grown[b]] || (values[grown[a]] == values[grown[b]] && grown[a]
        < grown[b]) by {
        let p = if a < j {
            a
        } else {
            a - 1
        };
        let q = if b < j {
            b
        } else {
            b - 1
        };
        if a != j && b != j {
            assert(grown[a] == head[p]);
            assert(grown[b] == head[q]);
        } else if b == j {
            assert(grown[a] == head[a]);
            assert(values[before[a]] <= values[i]);
            assert(before[a] < i);
        } else {
            assert(grown[b] == head[q]);
            assert(j < i);
            if q > j {
                assert(values[head[j]] < values[head[q]] || (values[head[j]] == values[head[q]]
                    && head[j] < head[q]));
            }
            assert(values[i] < values[before[j]]);
        }
    }
}

/// Only one order is the stable ascending one, so the result of sorting is unique.
pub proof fn law_stable_order_is_unique(keys: Seq<int>, a: Seq<int>, b: Seq<int>, k: int)
    requires
        stable_order(keys, a),
        stable_order(keys, b),
        0 <= k < keys.len(),
    ensures
        a[k] == b[k],
{
    lemma_rank_of(keys, a, k);
    lemma_rank_of(keys, b, k);
    let n = keys.len() as int;
    let p = lemma_find(b, n, a[k]);
    lemma_rank_of(keys, b, p);
    let ra = before_set(keys, a[k]);
    assert(ra.len() == k);
    assert(ra.len() == p);
}

/// The places that sort before place `x`.
pub open spec fn before_set(keys: Seq<int>, x: int) -> Set<int> {
    Set::new(
        |y: int| 0 <= y < keys.len() && (keys[y] < keys[x] || (keys[y] == keys[x] && y < x)),
    )
}

/// In a stable order, exactly `k` places sort before the one at place `k`.
proof fn lemma_rank_of(keys: Seq<int>, order: Seq<int>, k: int)
    requires
        stable_order(keys, order),
        0 <= k < keys.len(),
    ensures
        before_set(keys, order[k]).finite(),
        before_set(keys, order[k]).len() == k,
{
    let n = keys.len() as int;
    let head = order.take(k);
    assert(head.no_duplicates());
    head.unique_seq_to_set();
    assert(head.to_set() =~= before_set(keys, order[k])) by {
        assert forall|y: int| head.to_set().contains(y) <==> before_set(keys, order[k]).contains(y) by {
            if head.to_set().contains(y) {
                let i = choose|i: int| 0 <= i < head.len() && head[i] == y;
                assert(order[i] == y);
            }
            if before_set(keys, order[k]).contains(y) {
                let i = lemma_find(order, n, y);
                if i >= k {
                    if i > k {
                        assert(order[k] == order[k]);
                    }
                    assert(false);
                }
                assert(head[i] == y);
            }
        }
    }
}

/// A permutation reaches every place.
pub(crate) proof fn lemma_find(order: Seq<int>, n: int, y: int) -> (i: int)
    requires
        permutes(order, n),
        0 <= y < n,
    ensures
        0 <= i < n,
        order[i] == y,
{
    assert(order.no_duplicates());
    order.unique_seq_to_set();
    let all = vstd::set_lib::set_int_range(0, n);
    vstd::set_lib::lemma_int_range(0, n);
    assert(order.to_set().subset_of(all));
    vstd::set_lib::lemma_subset_equality(order.to_set(), all);
    assert(order.to_set().contains(y));
    choose|i: int| 0 <= i < order.len() && order[i] == y
}

} // verus!
