//! Parameter defaults, validation, and the name parsers.

use gravity_cluster::error::GravityError;
use gravity_cluster::metric::Distance;
use gravity_cluster::params::{Command, Parameters};
use gravity_cluster::SCALE;

#[test]
fn empty_defaults() {
    let p = Parameters::empty();
    assert_eq!(p.distance, Distance::Cosine);
    assert_eq!(p.smoothing, 5);
    assert_eq!(p.scaling_factor, 300_000);
    assert_eq!(p.convergence_factor, 3 * SCALE);
    assert_eq!(p.fuzz_trials, 10);
    assert_eq!(p.merge_distance, 0);
    assert!(p.sample_subsample.is_none());
    assert!(!p.refining);
    assert!(p.validate().is_ok());
}

#[test]
fn zero_scaling_factor_is_fatal() {
    let mut p = Parameters::empty();
    p.scaling_factor = 0;
    assert_eq!(p.validate(), Err(GravityError::InvalidScalingFactor));
    p.scaling_factor = SCALE + 1;
    assert_eq!(p.validate(), Err(GravityError::InvalidScalingFactor));
}

#[test]
fn other_bad_tunables_are_refused() {
    let mut p = Parameters::empty();
    p.smoothing = 0;
    assert_eq!(p.validate(), Err(GravityError::InvalidParameter));
    let mut q = Parameters::empty();
    q.fuzz_trials = 0;
    assert_eq!(q.validate(), Err(GravityError::InvalidParameter));
    let mut s = Parameters::empty();
    s.step_limit = 0;
    assert_eq!(s.validate(), Err(GravityError::InvalidParameter));
}

#[test]
fn parse_distance_names() {
    assert_eq!(Distance::parse("manhattan"), Some(Distance::Manhattan));
    assert_eq!(Distance::parse("m"), Some(Distance::Manhattan));
    assert_eq!(Distance::parse("cityblock"), Some(Distance::Manhattan));
    assert_eq!(Distance::parse("euclidean"), Some(Distance::Euclidean));
    assert_eq!(Distance::parse("e"), Some(Distance::Euclidean));
    assert_eq!(Distance::parse("cosine"), Some(Distance::Cosine));
    assert_eq!(Distance::parse("c"), Some(Distance::Cosine));
    assert_eq!(Distance::parse("cos"), Some(Distance::Cosine));
    assert_eq!(Distance::parse("correlation"), Some(Distance::Correlation));
    assert_eq!(Distance::parse("chebyshev"), None);
    assert_eq!(Distance::parse(""), None);
}

#[test]
fn parse_command_names() {
    assert_eq!(Command::parse("fit"), Some(Command::Fit));
    assert_eq!(Command::parse("predict"), Some(Command::Predict));
    assert_eq!(Command::parse("fitpredict"), Some(Command::FitPredict));
    assert_eq!(Command::parse("fit_predict"), Some(Command::FitPredict));
    assert_eq!(Command::parse("combined"), Some(Command::FitPredict));
    assert_eq!(Command::parse("fuzzy"), Some(Command::Fuzzy));
    assert_eq!(Command::parse("fuzzy_predict"), Some(Command::Fuzzy));
    assert_eq!(Command::parse("mobile"), Some(Command::Mobile));
    assert_eq!(Command::parse("nonsense"), None);
}
