//! The measures on concrete vectors.

use gravity_cluster::metric::Distance;
use gravity_cluster::SCALE;

#[test]
pub fn test_distance() {
    let p1: Vec<i64> = vec![0, 0];
    let p2: Vec<i64> = vec![3, 4];
    let p3: Vec<i64> = vec![-5, -12];
    let p4: Vec<i64> = vec![-3, 4];
    let p5: Vec<i64> = vec![3, -4];
    assert_eq!(0, Distance::Euclidean.measure(&p1, &p1));
    assert_eq!(5, Distance::Euclidean.measure(&p1, &p2));
    assert_eq!(13, Distance::Euclidean.measure(&p1, &p3));
    assert_eq!(6, Distance::Euclidean.measure(&p2, &p4));
    assert_eq!(8, Distance::Euclidean.measure(&p2, &p5));
}

#[test]
fn manhattan_exact() {
    let p1: Vec<i64> = vec![1, -2, 3];
    let p2: Vec<i64> = vec![-1, 2, 0];
    assert_eq!(9, Distance::Manhattan.measure(&p1, &p2));
    assert_eq!(9, Distance::Manhattan.measure(&p2, &p1));
    assert_eq!(0, Distance::Manhattan.measure(&p1, &p1));
}

#[test]
fn euclidean_rounds_down() {
    let p1: Vec<i64> = vec![0, 0];
    let p2: Vec<i64> = vec![1, 1];
    // sqrt(2) rounded down
    assert_eq!(1, Distance::Euclidean.measure(&p1, &p2));
}

#[test]
fn cosine_identical_and_opposite() {
    let p1: Vec<i64> = vec![100, 200];
    let p2: Vec<i64> = vec![-100, -200];
    assert_eq!(0, Distance::Cosine.measure(&p1, &p1));
    // opposite vectors: dissimilarity clamps at 2 * SCALE
    assert_eq!(2 * SCALE, Distance::Cosine.measure(&p1, &p2));
    // a zero-magnitude vector is mapped to a null contribution
    let z: Vec<i64> = vec![0, 0];
    assert_eq!(0, Distance::Cosine.measure(&z, &p1));
}

#[test]
fn cosine_orthogonal() {
    let p1: Vec<i64> = vec![1000, 0];
    let p2: Vec<i64> = vec![0, 1000];
    // orthogonal vectors sit at dissimilarity SCALE (similarity zero)
    assert_eq!(SCALE, Distance::Cosine.measure(&p1, &p2));
}

#[test]
fn correlation_identical_and_degenerate() {
    let p1: Vec<i64> = vec![1, 5, 9, 2];
    assert_eq!(0, Distance::Correlation.measure(&p1, &p1));
    // a constant vector has zero variance: degenerate, mapped to zero
    let c: Vec<i64> = vec![7, 7, 7, 7];
    assert_eq!(0, Distance::Correlation.measure(&c, &p1));
    // perfectly anti-correlated vectors clamp at 2 * SCALE
    let up: Vec<i64> = vec![0, 1000, 2000];
    let down: Vec<i64> = vec![2000, 1000, 0];
    assert_eq!(2 * SCALE, Distance::Correlation.measure(&up, &down));
}

#[test]
fn measures_symmetric() {
    let p1: Vec<i64> = vec![17, -40, 23];
    let p2: Vec<i64> = vec![-5, 11, 2];
    for d in [
        Distance::Manhattan,
        Distance::Euclidean,
        Distance::Cosine,
        Distance::Correlation,
    ] {
        assert_eq!(d.measure(&p1, &p2), d.measure(&p2, &p1));
        assert!(d.measure(&p1, &p2) >= 0);
        assert_eq!(0, d.measure(&p1, &p1));
    }
}

#[test]
fn isqrt_exact() {
    assert_eq!(0, gravity_cluster::metric::isqrt_u128(0));
    assert_eq!(5, gravity_cluster::metric::isqrt_u128(25));
    assert_eq!(5, gravity_cluster::metric::isqrt_u128(35));
    assert_eq!(6, gravity_cluster::metric::isqrt_u128(36));
    assert_eq!(1_000_000, gravity_cluster::metric::isqrt_u128(1_000_000_000_000));
}
