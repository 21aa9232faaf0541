//! End-to-end clustering scenarios.

use gravity_cluster::field::GravityField;
use gravity_cluster::matrix::Matrix;
use gravity_cluster::metric::Distance;
use gravity_cluster::params::Parameters;

/// All points identical: every pathfinder converges in zero effective
/// movement, and prediction yields a single cluster holding all points.
#[test]
fn identical_points_form_one_cluster() {
    let n = 6;
    let mut data: Vec<i64> = Vec::new();
    for _ in 0..n {
        data.push(500);
        data.push(500);
    }
    let raw = Matrix::new(data, n, 2).unwrap();
    let parameters = Parameters::empty();
    let mut field = GravityField::init(raw, parameters).unwrap();
    field.fit().unwrap();
    // zero effective movement: converged positions equal the dataset rows
    let positions = field.final_positions.as_ref().unwrap();
    for p in 0..n {
        assert_eq!(positions.row(p), vec![500, 500]);
        assert_eq!(field.fuzz[p], 0);
    }
    let labels = field.predict().unwrap();
    assert_eq!(field.clusters.len(), 1);
    assert_eq!(labels, vec![1; n]);
}

/// Two well-separated point clouds: fit and predict produce exactly two
/// distinct nonzero labels, one shared within each cloud.
#[test]
fn separated_clouds_get_two_labels() {
    let cloud_a: [(i64, i64); 4] = [(0, 0), (1000, 0), (0, 1000), (1000, 1000)];
    let cloud_b: [(i64, i64); 4] = [
        (800_000, 800_000),
        (801_000, 800_000),
        (800_000, 801_000),
        (801_000, 801_000),
    ];
    let mut data: Vec<i64> = Vec::new();
    for (x, y) in cloud_a.iter().chain(cloud_b.iter()) {
        data.push(*x);
        data.push(*y);
    }
    let raw = Matrix::new(data, 8, 2).unwrap();
    let mut parameters = Parameters::empty();
    parameters.distance = Distance::Euclidean;
    parameters.sample_subsample = Some(6);
    parameters.smoothing = 3;
    parameters.fuzz_trials = 10;
    parameters.seed = 7;
    let mut field = GravityField::init(raw, parameters).unwrap();
    field.fit().unwrap();
    let labels = field.predict().unwrap();
    // exactly two clusters, all labels nonzero
    assert_eq!(field.clusters.len(), 2);
    for l in &labels {
        assert!(*l == 1 || *l == 2);
    }
    // each cloud shares one label, and the clouds differ
    for i in 1..4 {
        assert_eq!(labels[0], labels[i]);
        assert_eq!(labels[4], labels[4 + i]);
    }
    assert_ne!(labels[0], labels[4]);
}

/// The five-point field: the three lower points pull together into one
/// cluster distinct from the upper two.
#[test]
fn five_point_field_splits_in_two() {
    let raw = Matrix::new(
        vec![10_000, 8_000, 9_000, 10_000, 3_000, 4_000, 3_000, 3_000, 5_000, 6_000],
        5,
        2,
    )
    .unwrap();
    let mut parameters = Parameters::empty();
    parameters.distance = Distance::Euclidean;
    parameters.sample_subsample = Some(4);
    parameters.smoothing = 2;
    parameters.fuzz_trials = 2;
    parameters.merge_factor = 1_000_000;
    parameters.merge_distance = 1_500;
    parameters.seed = 11;
    let mut field = GravityField::init(raw, parameters).unwrap();
    field.fit().unwrap();
    let labels = field.predict().unwrap();
    // {[3,4],[3,3],[5,6]} together, apart from {[10,8],[9,10]}
    assert_eq!(labels[2], labels[3]);
    assert_eq!(labels[2], labels[4]);
    assert_eq!(labels[0], labels[1]);
    assert_ne!(labels[0], labels[2]);
}

