use firefly::algebra::{add_matrices, multiply, negate, symmetrize, transform};
use firefly::double::Double;
use firefly::matrix::Matrix;
use firefly::sorting::sort_by_keys;
use firefly::table::Table;
use firefly::voxel_svio::map::VoxelKey;

fn d(x: f64) -> Double {
    Double::from_bits(x.to_bits())
}

fn f(x: Double) -> f64 {
    f64::from_bits(x.bits)
}

fn plus(a: Double, b: Double) -> Double {
    d(f(a) + f(b))
}

fn times(a: Double, b: Double) -> Double {
    d(f(a) * f(b))
}

fn samples() -> Vec<f64> {
    vec![
        f64::NAN,
        -f64::NAN,
        f64::INFINITY,
        f64::NEG_INFINITY,
        0.0,
        -0.0,
        1.0,
        -1.0,
        0.5,
        -0.5,
        1.5,
        -1.5,
        2.0_f64.powi(52) + 0.5,
        -4_503_599_627_370_497.5,
        1e300,
        -1e300,
        f64::MIN_POSITIVE,
        5e-324,
        -5e-324,
        2_147_483_647.9,
        -2_147_483_648.9,
        9.3e18,
        -9.3e18,
        1e20,
    ]
}

#[test]
fn comparisons_agree_with_the_machine() {
    for a in samples() {
        for b in samples() {
            assert_eq!(d(a).lt(d(b)), a < b, "{a} {b}");
            assert_eq!(d(a).le(d(b)), a <= b, "{a} {b}");
            assert_eq!(d(a).total_lt(d(b)), a.total_cmp(&b).is_lt(), "{a} {b}");
            assert_eq!(d(a).rank_key() < d(b).rank_key(), a.total_cmp(&b).is_lt());
            let m = f(d(a).max(d(b)));
            assert!(m == a.max(b) || (m.is_nan() && a.max(b).is_nan()), "{a} {b}");
        }
    }
}

#[test]
fn conversions_agree_with_the_machine() {
    for a in samples() {
        assert_eq!(d(a).to_i32(), a as i32, "{a}");
        assert_eq!(d(a).to_usize(), a as usize, "{a}");
        assert_eq!(d(a).floor_i64(), a.floor() as i64, "{a}");
        assert_eq!(d(a).is_nan(), a.is_nan());
        assert_eq!(d(a).is_finite(), a.is_finite());
        assert_eq!(d(a).neg().bits, (-a).to_bits());
        for n in [0usize, 1, 2, 3, 1 << 53] {
            assert_eq!(d(a).gt_integer(n), a > n as f64, "{a} {n}");
        }
    }
}

#[test]
fn constants_are_what_they_say() {
    assert_eq!(f(Double::zero()), 0.0);
    assert_eq!(f(Double::one()), 1.0);
    assert_eq!(f(Double::minus_one()), -1.0);
}

#[test]
fn the_total_order_orders_everything() {
    let all = samples();
    for a in &all {
        for b in &all {
            // Exactly one of two different numbers comes first.
            if a.to_bits() != b.to_bits() {
                assert!(d(*a).total_lt(d(*b)) != d(*b).total_lt(d(*a)));
            }
            // Where the comparison decides, the total order agrees.
            assert!(!d(*a).lt(d(*b)) || d(*a).total_lt(d(*b)));
            assert!(!d(*a).le(d(*b)) || d(*a).floor_i64() <= d(*b).floor_i64());
            assert_eq!(d(*a).lt(d(*b)), d(*b).neg().lt(d(*a).neg()));
            for c in &all {
                let (x, y, z) = (d(*a), d(*b), d(*c));
                assert!(!(x.total_lt(y) && y.total_lt(z)) || x.total_lt(z));
            }
        }
        assert_eq!(d(*a).neg().neg(), d(*a));
        if !a.is_nan() {
            assert!(d(f64::NEG_INFINITY).le(d(*a)) && d(*a).le(d(f64::INFINITY)));
        }
    }
}

#[test]
fn sorting_keeps_the_order_of_equals() {
    let mut keys: Vec<i128> = vec![3, 1, 2, 1, 3, 1];
    let mut items = vec!["a", "b", "c", "d", "e", "f"];
    sort_by_keys(&mut items, &mut keys);
    assert_eq!(items, vec!["b", "d", "f", "c", "a", "e"]);
    assert_eq!(keys, vec![1, 1, 1, 2, 3, 3]);
    let mut none: Vec<usize> = vec![];
    sort_by_keys(&mut none, &mut vec![]);
    assert!(none.is_empty());
}

#[test]
fn a_table_finds_what_was_put_in() {
    let key = |x: i32| VoxelKey(x, -x, 0);
    let mut t: Table<VoxelKey, &str> = Table::new();
    t.push(key(7), "seven");
    t.push(key(3), "three");
    t.push(key(5), "five");
    assert_eq!(t.len(), 3);
    assert_eq!(t.find(&key(3)), Some(1));
    assert_eq!(t.get(&key(5)), Some(&"five"));
    assert_eq!(t.get(&key(4)), None);
    assert!(t.contains(&key(7)));
    *t.at_mut(0) = "VII";
    assert_eq!(t.get(&key(7)), Some(&"VII"));
    assert_eq!(t.remove_at(1), (key(3), "three"));
    assert_eq!((t.key_at(1), *t.at(1)), (key(5), "five"));
    assert!(!t.contains(&key(3)));
}

fn matrix(rows: &[&[f64]]) -> Matrix {
    let mut m = Matrix::filled(rows.len(), rows[0].len(), Double::zero());
    for (i, row) in rows.iter().enumerate() {
        for (j, x) in row.iter().enumerate() {
            m.set(i, j, d(*x));
        }
    }
    m
}

fn entries(m: &Matrix) -> Vec<f64> {
    (0..m.nrows()).flat_map(|i| (0..m.ncols()).map(move |j| (i, j))).map(|(i, j)| f(m.get(i, j))).collect()
}

#[test]
fn products_and_sums_of_matrices() {
    let a = matrix(&[&[1.0, 2.0, 3.0], &[4.0, 5.0, 6.0]]);
    let b = matrix(&[&[1.0, 0.0], &[0.0, 1.0], &[2.0, 2.0]]);
    assert_eq!(entries(&multiply(&a, &b, &plus, &times)), vec![7.0, 8.0, 16.0, 17.0]);
    let v: Vec<f64> =
        transform(&a, &vec![d(1.0), d(1.0), d(2.0)], &plus, &times).into_iter().map(f).collect();
    assert_eq!(v, vec![9.0, 21.0]);
    assert_eq!(entries(&add_matrices(&a, &a, &plus)), vec![2.0, 4.0, 6.0, 8.0, 10.0, 12.0]);
    assert_eq!(entries(&negate(&a)), vec![-1.0, -2.0, -3.0, -4.0, -5.0, -6.0]);
    assert_eq!(entries(&a.transpose()), vec![1.0, 4.0, 2.0, 5.0, 3.0, 6.0]);
    assert_eq!(entries(&a.block(0, 1, 2, 2)), vec![2.0, 3.0, 5.0, 6.0]);
}

#[test]
fn a_symmetric_part_is_symmetric_to_the_bit() {
    let a = matrix(&[&[1.0, 0.1, 7.0], &[0.3, 2.0, 1e-9], &[5.0, 1e9, 3.0]]);
    let s = symmetrize(&a, &plus, &times);
    for i in 0..3 {
        for j in 0..3 {
            assert_eq!(s.get(i, j), s.get(j, i));
        }
    }
    assert_eq!(f(s.get(0, 2)), 6.0);
    assert_eq!(f(s.get(1, 1)), 2.0);
}

#[test]
fn blocks_and_diagonals_are_set_in_place() {
    let mut m = Matrix::filled(3, 3, d(1.0));
    m.set_block(1, 0, &matrix(&[&[5.0, 6.0]]));
    m.set_diagonal(1, 2, d(9.0));
    assert_eq!(entries(&m), vec![1.0, 1.0, 1.0, 5.0, 9.0, 1.0, 1.0, 1.0, 9.0]);
}
