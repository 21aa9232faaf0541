//! Gravity-descent clustering over fixed-point coordinates.
//!
//! Points of a dense integer matrix are walked, one at a time, toward a
//! neighbour-weighted average position until their trajectory stabilises;
//! the stabilised positions are then agglomerated greedily into clusters.
//! Fractional quantities (damping, convergence ratios, the cosine and
//! correlation dissimilarities) are carried as integers scaled by `SCALE`.

use vstd::prelude::*;

pub mod cluster;
pub mod error;
pub mod field;
pub mod matrix;
pub mod metric;
pub mod params;
pub mod pathfinder;
pub mod rng;

verus! {

/// Denominator of all fixed-point fractions held by this crate.
pub const SCALE: i64 = 1_000_000;

/// Largest magnitude a coordinate may have.
pub const COORD_MAX: i64 = 1_048_576;

/// Largest number of columns (features) a matrix may have.
pub const DIM_MAX: usize = 1024;

/// Largest number of rows (points) a matrix may have.
pub const ROWS_MAX: usize = 1_048_576;

/// Largest value any measure can return: the Manhattan distance of two
/// opposite corner vectors, `DIM_MAX * 2 * COORD_MAX`.
pub const DIST_MAX: i64 = 2_147_483_648;

/// `2 * COORD_MAX`: the largest absolute difference of two coordinates.
pub const ABS_DIFF_MAX: i64 = 2_097_152;

/// `ABS_DIFF_MAX^2`: the largest squared coordinate difference.
pub const DIFF_SQ_MAX: i64 = 4_398_046_511_104;

/// `COORD_MAX^2`: the largest absolute product of two coordinates.
pub const PROD_MAX: i64 = 1_099_511_627_776;

/// `DIM_MAX * DIFF_SQ_MAX`: the largest sum of squared differences.
pub const SQSUM_MAX: i64 = 4_503_599_627_370_496;

/// `DIM_MAX * PROD_MAX`: the largest absolute dot product.
pub const DOT_SUM_MAX: i64 = 1_125_899_906_842_624;

/// `2 * DIM_MAX * COORD_MAX`: the largest absolute centred, length-scaled
/// coordinate.
pub const CENTERED_MAX: i64 = 2_147_483_648;

/// `CENTERED_MAX^2`: the largest absolute product of two centred
/// coordinates.
pub const CPROD_MAX: i64 = 4_611_686_018_427_387_904;

/// `DIM_MAX * CPROD_MAX`: the largest absolute scaled covariance.
pub const CCOV_MAX: u128 = 4_722_366_482_869_645_213_696;

/// How many recent positions a solver remembers for its convergence test.
pub const HISTORY_CAP: usize = 50;

} // verus!
