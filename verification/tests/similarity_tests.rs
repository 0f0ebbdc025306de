use vectordb::similarity::isqrt;
use vectordb::similarity::reductions;
use vectordb::similarity::similarity;
use vectordb::similarity::MAX_DIM;
use vectordb::similarity::SIM_SCALE;

#[test]
fn reductions_exact() {
    let a: Vec<i16> = vec![1, 2];
    let b: Vec<i16> = vec![3, 4];
    assert_eq!(reductions(&a, &b), (11, 5, 25));
    let e: Vec<i16> = vec![];
    assert_eq!(reductions(&e, &e), (0, 0, 0));
}

#[test]
fn isqrt_exact() {
    assert_eq!(isqrt(0), 0);
    assert_eq!(isqrt(1), 1);
    assert_eq!(isqrt(2), 1);
    assert_eq!(isqrt(3), 1);
    assert_eq!(isqrt(4), 2);
    assert_eq!(isqrt(15), 3);
    assert_eq!(isqrt(16), 4);
    assert_eq!(isqrt(1_000_000_000_000), 1_000_000);
    assert_eq!(isqrt(999_999_999_999), 999_999);
}

#[test]
fn similarity_exact_values() {
    // dot = 6, |a|^2 = 14, |b|^2 = 3: cosine 6/sqrt(42) = 0.92582...
    let a: Vec<i16> = vec![1, 2, 3];
    let q: Vec<i16> = vec![1, 1, 1];
    assert_eq!(similarity(&a, &q), 9258);
    // dot = 15, |a|^2 = 77, |b|^2 = 3: cosine 15/sqrt(231) = 0.98693...
    let b: Vec<i16> = vec![4, 5, 6];
    assert_eq!(similarity(&b, &q), 9869);
    // dot = 1, |a|^2 = 2, |b|^2 = 1: cosine 1/sqrt(2) = 0.70710...
    let c: Vec<i16> = vec![1, 1];
    let d: Vec<i16> = vec![1, 0];
    assert_eq!(similarity(&c, &d), 7071);
}

#[test]
fn similarity_symmetric() {
    let a: Vec<i16> = vec![1, 2, 3];
    let b: Vec<i16> = vec![-4, 5, 9];
    assert_eq!(similarity(&a, &b), similarity(&b, &a));
    let c: Vec<i16> = vec![7, -3];
    let d: Vec<i16> = vec![0, 12];
    assert_eq!(similarity(&c, &d), similarity(&d, &c));
}

#[test]
fn similarity_self_is_one() {
    let a: Vec<i16> = vec![1, 2, 3];
    assert_eq!(similarity(&a, &a), SIM_SCALE);
    let b: Vec<i16> = vec![3, 4];
    assert_eq!(similarity(&b, &b), SIM_SCALE);
    let c: Vec<i16> = vec![-7];
    assert_eq!(similarity(&c, &c), SIM_SCALE);
    let d: Vec<i16> = vec![32767, -32768, 12345];
    assert_eq!(similarity(&d, &d), SIM_SCALE);
}

#[test]
fn similarity_zero_vector_is_zero() {
    let z: Vec<i16> = vec![0, 0, 0];
    let q: Vec<i16> = vec![1, 1, 1];
    assert_eq!(similarity(&z, &q), 0);
    assert_eq!(similarity(&q, &z), 0);
    assert_eq!(similarity(&z, &z), 0);
}

#[test]
fn similarity_opposite_is_minus_one() {
    let a: Vec<i16> = vec![1, 0];
    let b: Vec<i16> = vec![-1, 0];
    assert_eq!(similarity(&a, &b), -SIM_SCALE);
}

#[test]
fn similarity_orthogonal_is_zero() {
    let a: Vec<i16> = vec![1, 0];
    let b: Vec<i16> = vec![0, 1];
    assert_eq!(similarity(&a, &b), 0);
}

#[test]
fn similarity_stays_in_range() {
    let pairs: Vec<(Vec<i16>, Vec<i16>)> = vec![
        (vec![32767, 32767], vec![32767, 32767]),
        (vec![-32768, -32768], vec![32767, 32767]),
        (vec![1, 1, 1, 1], vec![-1, 2, -3, 4]),
    ];
    for (a, b) in pairs {
        let s = similarity(&a, &b);
        assert!(-SIM_SCALE <= s && s <= SIM_SCALE);
    }
}

#[test]
fn largest_dimension_accepted() {
    let a: Vec<i16> = vec![1; MAX_DIM];
    let b: Vec<i16> = vec![1; MAX_DIM];
    assert_eq!(similarity(&a, &b), SIM_SCALE);
}
