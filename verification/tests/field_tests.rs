//! The orchestrator: construction, fitting, prediction.

use gravity_cluster::error::GravityError;
use gravity_cluster::field::GravityField;
use gravity_cluster::matrix::Matrix;
use gravity_cluster::params::Parameters;
use gravity_cluster::COORD_MAX;

fn basic_field() -> Matrix {
    Matrix::new(vec![10, 8, 9, 10, 3, 4, 3, 3, 5, 6], 5, 2).unwrap()
}

#[test]
pub fn initization() {
    let parameters = Parameters::empty();
    let raw = basic_field();
    GravityField::init(raw, parameters).unwrap();
}

#[test]
fn initization_out_of_range() {
    // the fatal ingress check: an entry beyond the coordinate bound
    let r = Matrix::new(vec![0, COORD_MAX + 1], 1, 2);
    assert_eq!(
        r.err(),
        Some(GravityError::EntryOutOfRange { row: 0, col: 1 })
    );
    let bad_shape = Matrix::new(vec![1, 2, 3], 2, 2);
    assert_eq!(bad_shape.err(), Some(GravityError::BadShape));
}

#[test]
pub fn fit() {
    let parameters = Parameters::empty();
    let raw = basic_field();
    let mut field = GravityField::init(raw, parameters).unwrap();
    field.fit().unwrap();
    assert!(field.final_positions.is_some());
    assert_eq!(field.fuzz.len(), 5);
}

#[test]
pub fn predict() {
    let parameters = Parameters::empty();
    let raw = basic_field();
    let mut field = GravityField::init(raw, parameters).unwrap();
    field.fit().unwrap();
    let labels = field.predict().unwrap();
    assert_eq!(labels.len(), 5);
    // every label lies within [0, K] for K the realized cluster count
    let k = field.clusters.len();
    for l in &labels {
        assert!(*l <= k);
    }
}

#[test]
fn predict_before_fit_is_refused() {
    let parameters = Parameters::empty();
    let raw = basic_field();
    let mut field = GravityField::init(raw, parameters).unwrap();
    assert_eq!(field.fuzzy_predict(), Err(GravityError::NotFitted));
    assert_eq!(field.predict(), Err(GravityError::NotFitted));
}

#[test]
fn invalid_scaling_factor_refused_at_init() {
    let mut parameters = Parameters::empty();
    parameters.scaling_factor = 0;
    let raw = basic_field();
    assert!(matches!(
        GravityField::init(raw, parameters),
        Err(GravityError::InvalidScalingFactor)
    ));
}

#[test]
fn predict_twice_is_idempotent() {
    let parameters = Parameters::empty();
    let raw = basic_field();
    let mut field = GravityField::init(raw, parameters).unwrap();
    field.fit().unwrap();
    let first = field.fuzzy_predict().unwrap();
    let second = field.fuzzy_predict().unwrap();
    assert_eq!(first, second);
    let third = field.predict().unwrap();
    assert_eq!(first, third);
}

#[test]
fn single_trial_has_zero_deviation() {
    let mut parameters = Parameters::empty();
    parameters.fuzz_trials = 1;
    let raw = basic_field();
    let mut field = GravityField::init(raw, parameters).unwrap();
    field.fit().unwrap();
    for f in &field.fuzz {
        assert_eq!(*f, 0);
    }
}

#[test]
fn exhausted_step_budget_names_the_point() {
    let mut parameters = Parameters::empty();
    parameters.distance = gravity_cluster::metric::Distance::Euclidean;
    parameters.fuzz_trials = 1;
    parameters.step_limit = 3;
    // far apart on one axis: the walk needs many damped steps
    let raw = Matrix::new(vec![100_000, 900_000], 2, 1).unwrap();
    let mut field = GravityField::init(raw, parameters).unwrap();
    let r = field.fit();
    assert!(matches!(r, Err(GravityError::NonConvergent { point: _ })));
}
