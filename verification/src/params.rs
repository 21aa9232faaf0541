//! The tunable parameter bundle, its defaults and its validation, and the
//! parsing of the metric and command names.

use vstd::prelude::*;
use vstd::string::StrSliceExecFns;

verus! {

use crate::{SCALE, DIST_MAX};
use crate::metric::{spec_measure, valid_pair};
use crate::error::GravityError;
use crate::metric::Distance;

/// The top-level operations a caller can name.
#[derive(Clone, Copy, Debug, PartialEq, Eq, Structural)]
pub enum Command {
    Fit,
    Predict,
    FitPredict,
    Fuzzy,
    Mobile,
}

/// Tunable options of a fit/predict cycle.  Fractions are scaled by
/// `SCALE`.
#[derive(Clone, Debug)]
pub struct Parameters {
    /// The dissimilarity measure.
    pub distance: Distance,
    /// How many other points each solver step samples; `None` asks for the
    /// default rule `clamp(n / 10, 2, 1000)`.
    pub sample_subsample: Option<usize>,
    /// Accepted for interface parity; this solver samples whole points and
    /// leaves features unmasked.
    pub feature_subsample: Option<usize>,
    /// How many nearest sampled points are averaged per step.
    pub smoothing: usize,
    /// Fraction of `SCALE` moved toward the candidate each step.
    pub scaling_factor: i64,
    /// Convergence ratio, scaled by `SCALE`: a point converges once its
    /// long-window displacement falls under `convergence_factor / SCALE`
    /// times its short-window displacement.
    pub convergence_factor: i64,
    /// How many independent descents make one ensemble.
    pub fuzz_trials: usize,
    /// Step budget of one descent; running out is a `NonConvergent` error.
    pub step_limit: usize,
    /// Cluster-merge threshold, scaled by `SCALE`: two clusters merge when
    /// their centre distance is at most `merge_factor / SCALE` times the
    /// sum of their radii, plus `merge_distance`.
    pub merge_factor: i64,
    /// Absolute base of the cluster-merge threshold, in coordinate units.
    pub merge_distance: i64,
    /// Seed of the per-point random streams.
    pub seed: u64,
    /// Whether the caller intends a second, tightened pass on the output
    /// of the first.
    pub refining: bool,
}

/// The accepted ranges of every tunable.
pub open spec fn params_valid(p: Parameters) -> bool {
    &&& 0 < p.scaling_factor <= SCALE
    &&& 0 < p.convergence_factor <= 1_000_000_000
    &&& 1 <= p.smoothing
    &&& 1 <= p.fuzz_trials <= 1000
    &&& 1 <= p.step_limit <= 1_000_000_000
    &&& 0 <= p.merge_factor <= 16_000_000
    &&& 0 <= p.merge_distance <= DIST_MAX
}

impl Parameters {
    /// The defaults: cosine distance, five neighbours averaged, damping
    /// 0.3, convergence ratio 3, ten ensemble trials.
    pub fn empty() -> (r: Parameters)
        ensures
            r.distance == Distance::Cosine,
            r.sample_subsample == Option::<usize>::None,
            r.feature_subsample == Option::<usize>::None,
            r.smoothing == 5usize,
            r.scaling_factor == 300_000i64,
            r.convergence_factor == 3 * SCALE,
            r.fuzz_trials == 10usize,
            r.step_limit == 200_000usize,
            r.merge_factor == 2_000_000i64,
            r.merge_distance == 0i64,
            r.seed == 0u64,
            r.refining == false,
            params_valid(r),
    {
        Parameters {
            distance: Distance::Cosine,
            sample_subsample: None,
            feature_subsample: None,
            smoothing: 5,
            scaling_factor: 300_000,
            convergence_factor: 3 * SCALE,
            fuzz_trials: 10,
            step_limit: 200_000,
            merge_factor: 2_000_000,
            merge_distance: 0,
            seed: 0,
            refining: false,
        }
    }

    /// Checks every tunable.
    ///
    /// Returns `Ok` exactly when the bundle is valid; a scaling factor
    /// outside `(0, SCALE]` is the fatal configuration error the
    /// orchestrator refuses first, any other offending tunable is an
    /// `InvalidParameter`.
    pub fn validate(&self) -> (r: Result<(), GravityError>)
        ensures
            r is Ok <==> params_valid(*self),
            r == Err::<(), GravityError>(GravityError::InvalidScalingFactor) <==> !(0
                < self.scaling_factor <= SCALE),
    {
        if self.scaling_factor <= 0 || self.scaling_factor > SCALE {
            return Err(GravityError::InvalidScalingFactor);
        }
        if self.convergence_factor <= 0 || self.convergence_factor > 1_000_000_000 {
            return Err(GravityError::InvalidParameter);
        }
        if self.smoothing < 1 {
            return Err(GravityError::InvalidParameter);
        }
        if self.fuzz_trials < 1 || self.fuzz_trials > 1000 {
            return Err(GravityError::InvalidParameter);
        }
        if self.step_limit < 1 || self.step_limit > 1_000_000_000 {
            return Err(GravityError::InvalidParameter);
        }
        if self.merge_factor < 0 || self.merge_factor > 16_000_000 {
            return Err(GravityError::InvalidParameter);
        }
        if self.merge_distance < 0 || self.merge_distance > DIST_MAX {
            return Err(GravityError::InvalidParameter);
        }
        Ok(())
    }

    /// Measures two vectors under the configured metric.
    pub fn distance(&self, p1: &Vec<i64>, p2: &Vec<i64>) -> (r: i64)
        requires
            valid_pair(p1@, p2@),
        ensures
            r == spec_measure(self.distance, p1@, p2@),
            0 <= r <= DIST_MAX,
    {
        self.distance.measure(p1, p2)
    }
}

/// Character-for-character equality of two string slices.
fn str_eq(a: &str, b: &str) -> (r: bool)
    ensures
        r <==> a@ == b@,
{
    let la = a.unicode_len();
    let lb = b.unicode_len();
    if la != lb {
        return false;
    }
    for i in 0..la
        invariant
            la == a@.len(),
            la == b@.len(),
            forall|j: int| 0 <= j < i ==> a@[j] == b@[j],
    {
        if a.get_char(i) != b.get_char(i) {
            return false;
        }
    }
    proof {
        assert(a@ =~= b@);
    }
    true
}

/// What `Distance::parse` accepts, by the view of its argument.
pub open spec fn spec_parse_distance(s: Seq<char>) -> Option<Distance> {
    if s == "manhattan"@ || s == "m"@ || s == "cityblock"@ {
        Some(Distance::Manhattan)
    } else if s == "euclidean"@ || s == "e"@ {
        Some(Distance::Euclidean)
    } else if s == "cosine"@ || s == "c"@ || s == "cos"@ {
        Some(Distance::Cosine)
    } else if s == "correlation"@ {
        Some(Distance::Correlation)
    } else {
        None
    }
}

impl Distance {
    /// Parses a metric name; an unrecognised name is refused, which the
    /// caller treats as a fatal configuration error.
    pub fn parse(argument: &str) -> (r: Option<Distance>)
        ensures
            r == spec_parse_distance(argument@),
    {
        if str_eq(argument, "manhattan") || str_eq(argument, "m") || str_eq(
            argument,
            "cityblock",
        ) {
            Some(Distance::Manhattan)
        } else if str_eq(argument, "euclidean") || str_eq(argument, "e") {
            Some(Distance::Euclidean)
        } else if str_eq(argument, "cosine") || str_eq(argument, "c") || str_eq(
            argument,
            "cos",
        ) {
            Some(Distance::Cosine)
        } else if str_eq(argument, "correlation") {
            Some(Distance::Correlation)
        } else {
            None
        }
    }
}

/// What `Command::parse` accepts, by the view of its argument.
pub open spec fn spec_parse_command(s: Seq<char>) -> Option<Command> {
    if s == "fit"@ {
        Some(Command::Fit)
    } else if s == "predict"@ {
        Some(Command::Predict)
    } else if s == "fitpredict"@ || s == "fit_predict"@ || s == "combined"@ {
        Some(Command::FitPredict)
    } else if s == "fuzzy_predict"@ || s == "fuzzy"@ {
        Some(Command::Fuzzy)
    } else if s == "mobile"@ {
        Some(Command::Mobile)
    } else {
        None
    }
}

impl Command {
    /// Parses a top-level command name; an unrecognised name is refused.
    pub fn parse(command: &str) -> (r: Option<Command>)
        ensures
            r == spec_parse_command(command@),
    {
        if str_eq(command, "fit") {
            Some(Command::Fit)
        } else if str_eq(command, "predict") {
            Some(Command::Predict)
        } else if str_eq(command, "fitpredict") || str_eq(command, "fit_predict") || str_eq(
            command,
            "combined",
        ) {
            Some(Command::FitPredict)
        } else if str_eq(command, "fuzzy_predict") || str_eq(command, "fuzzy") {
            Some(Command::Fuzzy)
        } else if str_eq(command, "mobile") {
            Some(Command::Mobile)
        } else {
            None
        }
    }
}

} // verus!
