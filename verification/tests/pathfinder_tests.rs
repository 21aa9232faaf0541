//! The per-point solver on concrete datasets.

use gravity_cluster::matrix::Matrix;
use gravity_cluster::params::Parameters;
use gravity_cluster::pathfinder::{default_subsample, Pathfinder};

#[test]
fn default_subsample_rule() {
    // clamp(n / 10, 2, 1000), never more than the n - 1 other points
    assert_eq!(default_subsample(0), 0);
    assert_eq!(default_subsample(1), 0);
    assert_eq!(default_subsample(2), 1);
    assert_eq!(default_subsample(5), 2);
    assert_eq!(default_subsample(50), 5);
    assert_eq!(default_subsample(200), 20);
    assert_eq!(default_subsample(20_000), 1000);
}

#[test]
fn step_on_identical_points_reports_no_movement() {
    // every neighbour sits at distance zero: an immediate convergence signal
    let m = Matrix::new(vec![500, 500, 500, 500, 500, 500], 3, 2).unwrap();
    let parameters = Parameters::empty();
    let mut pf = Pathfinder::init(0, 3, 2, &parameters);
    assert!(pf.step(&m).is_none());
}

#[test]
fn step_moves_toward_neighbours() {
    let mut parameters = Parameters::empty();
    parameters.distance = gravity_cluster::metric::Distance::Euclidean;
    parameters.sample_subsample = Some(2);
    parameters.smoothing = 2;
    let m = Matrix::new(vec![0, 0, 9000, 0, 10000, 0], 3, 2).unwrap();
    let mut pf = Pathfinder::init(0, 3, 2, &parameters);
    let (p, d) = pf.step(&m).unwrap();
    // the candidate averages the two others and keeps 0.7 of the origin:
    // 0.3 * 9500 rounded toward zero
    assert_eq!(p, vec![2850, 0]);
    assert_eq!(d, 2850);
}

#[test]
fn single_descend_settles() {
    let mut parameters = Parameters::empty();
    parameters.distance = gravity_cluster::metric::Distance::Euclidean;
    let m = Matrix::new(vec![7000, 8000, 5000, 6000, 5200, 6100, 4900, 5900], 4, 2).unwrap();
    let mut pf = Pathfinder::init(0, 4, 2, &parameters);
    let end = pf.single_descend(&m).unwrap();
    // the walk left the starting row and settled among the other points
    let d_end = gravity_cluster::metric::Distance::Euclidean.measure(&end, &m.row(0));
    let d_others = gravity_cluster::metric::Distance::Euclidean.measure(&end, &m.row(1));
    assert!(d_end > 0);
    assert!(d_others < 2000);
    // the solver is rearmed afterwards
    assert!(!pf.converged);
    assert!(pf.previous_steps.is_empty());
}

#[test]
fn fuzzy_descend_single_trial_zero_deviation() {
    let mut parameters = Parameters::empty();
    parameters.distance = gravity_cluster::metric::Distance::Euclidean;
    let m = Matrix::new(vec![7000, 8000, 5000, 6000, 5200, 6100, 4900, 5900], 4, 2).unwrap();
    let mut pf = Pathfinder::init(2, 4, 2, &parameters);
    let (avg, deviation, _displacement) = pf.fuzzy_descend(1, &m).unwrap();
    assert_eq!(deviation, 0);
    assert_eq!(avg.len(), 2);
}
