//! Centroid and merge exactness of the cluster entity.

use gravity_cluster::cluster::Cluster;
use gravity_cluster::matrix::Matrix;
use gravity_cluster::metric::Distance;

fn positions() -> Matrix {
    Matrix::new(vec![2, 4, 6, 8, 10, 0], 3, 2).unwrap()
}

#[test]
fn merge_point_keeps_centroid_exact() {
    let m = positions();
    let mut c = Cluster::init(1, &m, 0, Distance::Euclidean);
    assert_eq!(c.weight, 1);
    assert_eq!(c.radius(), 0);
    c.merge_point(&m, 1, Distance::Euclidean);
    c.merge_point(&m, 2, Distance::Euclidean);
    assert_eq!(c.weight, 3);
    assert_eq!(c.members, vec![0, 1, 2]);
    // the maintained centroid numerator equals the direct recomputation
    let direct: Vec<i64> = vec![2 + 6 + 10, 4 + 8 + 0];
    assert_eq!(c.sum, direct);
    // and the centroid is the exact mean of the members
    let center = c.center(&m, Distance::Euclidean);
    assert_eq!(center, vec![6, 4]);
}

#[test]
fn merge_cluster_adds_weights_and_centroids() {
    let m = positions();
    let mut a = Cluster::init(1, &m, 0, Distance::Euclidean);
    a.merge_point(&m, 1, Distance::Euclidean);
    let b = Cluster::init(2, &m, 2, Distance::Euclidean);
    let merged = a.merge_cluster(&b, &m, Distance::Euclidean);
    // weight is the sum of both weights
    assert_eq!(merged.weight, a.weight + b.weight);
    // the receiving id survives
    assert_eq!(merged.id, 1);
    // the centroid numerator is the sum of both numerators, which makes
    // the merged centroid the weight-weighted average of both centroids
    assert_eq!(merged.sum[0], a.sum[0] + b.sum[0]);
    assert_eq!(merged.sum[1], a.sum[1] + b.sum[1]);
    let ca = a.center(&m, Distance::Euclidean);
    let cb = b.center(&m, Distance::Euclidean);
    let cm = merged.center(&m, Distance::Euclidean);
    let wa = a.weight as i64;
    let wb = b.weight as i64;
    assert_eq!(cm[0], (wa * ca[0] + wb * cb[0]) / (wa + wb));
    assert_eq!(cm[1], (wa * ca[1] + wb * cb[1]) / (wa + wb));
    assert_eq!(merged.members, vec![0, 1, 2]);
}

#[test]
fn radius_is_mean_member_distance() {
    let m = positions();
    let mut c = Cluster::init(1, &m, 0, Distance::Euclidean);
    c.merge_point(&m, 1, Distance::Euclidean);
    c.merge_point(&m, 2, Distance::Euclidean);
    let center = c.center(&m, Distance::Euclidean);
    let mut total: i64 = 0;
    for p in 0..3 {
        total += Distance::Euclidean.measure(&m.row(p), &center);
    }
    assert_eq!(c.radius(), total / 3);
}
