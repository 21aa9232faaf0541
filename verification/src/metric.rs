//! Dissimilarity measures between feature vectors.
//!
//! Coordinates are plain `i64` values bounded by `COORD_MAX`; the cosine and
//! correlation measures, which are dimensionless ratios in real arithmetic,
//! are returned scaled by `SCALE`.  Every measure is defined exactly by a
//! spec function, is symmetric, vanishes on identical inputs and never
//! exceeds `DIST_MAX`.

use vstd::prelude::*;
use vstd::arithmetic::div_mod::{lemma_div_is_ordered, lemma_div_multiples_vanish};

verus! {

use crate::{COORD_MAX, DIM_MAX, SCALE, DIST_MAX, ABS_DIFF_MAX, DIFF_SQ_MAX, PROD_MAX, SQSUM_MAX, DOT_SUM_MAX, CENTERED_MAX, CPROD_MAX, CCOV_MAX};

/// Absolute value over mathematical integers.
pub open spec fn abs_val(x: int) -> int {
    if x < 0 {
        -x
    } else {
        x
    }
}

/// Every entry of `p` lies within `[-COORD_MAX, COORD_MAX]`.
pub open spec fn bounded_seq(p: Seq<i64>) -> bool {
    forall|i: int| 0 <= i < p.len() ==> -COORD_MAX <= #[trigger] p[i] <= COORD_MAX
}

/// `p` and `q` are two coordinate vectors a measure accepts.
pub open spec fn valid_pair(p: Seq<i64>, q: Seq<i64>) -> bool {
    &&& p.len() == q.len()
    &&& p.len() <= DIM_MAX
    &&& bounded_seq(p)
    &&& bounded_seq(q)
}

// ---------------------------------------------------------------------------
// Partial sums over coordinate pairs.
// ---------------------------------------------------------------------------

/// Sum of `|p[j] - q[j]|` over `j < n`.
pub open spec fn sum_abs_partial(p: Seq<i64>, q: Seq<i64>, n: int) -> int
    decreases n,
{
    if n <= 0 {
        0
    } else {
        sum_abs_partial(p, q, n - 1) + abs_val(p[n - 1] - q[n - 1])
    }
}

/// Sum of `(p[j] - q[j])^2` over `j < n`.
pub open spec fn sum_sq_diff_partial(p: Seq<i64>, q: Seq<i64>, n: int) -> int
    decreases n,
{
    if n <= 0 {
        0
    } else {
        sum_sq_diff_partial(p, q, n - 1) + (p[n - 1] - q[n - 1]) * (p[n - 1] - q[n - 1])
    }
}

/// Sum of `p[j] * q[j]` over `j < n`.
pub open spec fn dot_partial(p: Seq<i64>, q: Seq<i64>, n: int) -> int
    decreases n,
{
    if n <= 0 {
        0
    } else {
        dot_partial(p, q, n - 1) + p[n - 1] * q[n - 1]
    }
}

/// Sum of `p[j]` over `j < n`.
pub open spec fn sum_partial(p: Seq<i64>, n: int) -> int
    decreases n,
{
    if n <= 0 {
        0
    } else {
        sum_partial(p, n - 1) + p[n - 1]
    }
}

/// Coordinate `j` of `p`, centred on the mean of `p` and scaled by `p.len()`
/// so that it stays an integer.
pub open spec fn centered(p: Seq<i64>, j: int) -> int {
    p.len() * p[j] - sum_partial(p, p.len() as int)
}

/// Sum of `centered(p, j) * centered(q, j)` over `j < n`: the covariance of
/// `p` and `q`, scaled by `p.len()^3`.
pub open spec fn ccov_partial(p: Seq<i64>, q: Seq<i64>, n: int) -> int
    decreases n,
{
    if n <= 0 {
        0
    } else {
        ccov_partial(p, q, n - 1) + centered(p, n - 1) * centered(q, n - 1)
    }
}

// ---------------------------------------------------------------------------
// Integer square root.
// ---------------------------------------------------------------------------

/// `r` is the integer square root of `s`.
pub open spec fn is_isqrt(s: int, r: int) -> bool {
    &&& 0 <= r
    &&& r * r <= s
    &&& s < (r + 1) * (r + 1)
}

/// The integer square root of `s`: the unique `r >= 0` with
/// `r^2 <= s < (r+1)^2`.
pub open spec fn spec_isqrt(s: int) -> int {
    choose|r: int| is_isqrt(s, r)
}

/// An integer square root exists for every nonnegative argument.
pub proof fn lemma_isqrt_exists(s: int)
    requires
        0 <= s,
    ensures
        is_isqrt(s, spec_isqrt(s)),
    decreases s,
{
    if s == 0 {
        assert(is_isqrt(0, 0));
    } else {
        lemma_isqrt_exists(s - 1);
        let r = spec_isqrt(s - 1);
        if s < (r + 1) * (r + 1) {
            assert(is_isqrt(s, r));
        } else {
            assert(s == (r + 1) * (r + 1));
            assert((r + 1) * (r + 1) < (r + 2) * (r + 2)) by (nonlinear_arith)
                requires
                    r >= 0,
            ;
            assert(is_isqrt(s, r + 1));
        }
    }
}

/// The integer square root is unique.
pub proof fn lemma_isqrt_unique(s: int, r: int)
    requires
        is_isqrt(s, r),
    ensures
        spec_isqrt(s) == r,
{
    lemma_isqrt_exists(s);
    let w = spec_isqrt(s);
    assert(w == r) by (nonlinear_arith)
        requires
            0 <= r,
            0 <= w,
            r * r <= s,
            s < (r + 1) * (r + 1),
            w * w <= s,
            s < (w + 1) * (w + 1),
    ;
}

/// Integer square root by bisection.
pub fn isqrt_u128(s: u128) -> (r: u128)
    requires
        s < 0x4000_0000_0000_0000_0000_0000_0000_0000u128,
    ensures
        is_isqrt(s as int, r as int),
        r == spec_isqrt(s as int),
{
    let mut lo: u128 = 0;
    let mut hi: u128 = 0x8000_0000_0000_0000u128;
    proof {
        assert(0x8000_0000_0000_0000int * 0x8000_0000_0000_0000int
            == 0x4000_0000_0000_0000_0000_0000_0000_0000int);
    }
    while lo + 1 < hi
        invariant
            lo < hi,
            hi <= 0x8000_0000_0000_0000u128,
            lo * lo <= s,
            s < hi * hi,
        decreases hi - lo,
    {
        let mid = lo + (hi - lo) / 2;
        proof {
            assert(mid * mid < 0x4000_0000_0000_0000_0000_0000_0000_0000int)
                by (nonlinear_arith)
                requires
                    0 <= mid < 0x8000_0000_0000_0000u128,
            ;
        }
        if mid * mid <= s {
            lo = mid;
        } else {
            hi = mid;
        }
    }
    proof {
        lemma_isqrt_unique(s as int, lo as int);
    }
    lo
}

// ---------------------------------------------------------------------------
// The measures.
// ---------------------------------------------------------------------------

/// The dissimilarity measures offered on coordinate vectors.
#[derive(Clone, Copy, Debug, PartialEq, Eq, Structural)]
pub enum Distance {
    Manhattan,
    Euclidean,
    Cosine,
    Correlation,
}

/// Manhattan distance: the sum of absolute coordinate differences.
pub open spec fn spec_manhattan(p: Seq<i64>, q: Seq<i64>) -> int {
    sum_abs_partial(p, q, p.len() as int)
}

/// Euclidean distance, rounded down to an integer: the integer square root
/// of the sum of squared coordinate differences.
pub open spec fn spec_euclidean(p: Seq<i64>, q: Seq<i64>) -> int {
    spec_isqrt(sum_sq_diff_partial(p, q, p.len() as int))
}

/// Cosine dissimilarity, scaled by `SCALE` and clamped to `[0, 2 * SCALE]`.
///
/// The real quantity is `1 - p.q / (|p| |q|)`; here the norms are integer
/// square roots, the quotient is rounded down, and a vector of zero
/// magnitude makes the measure zero (the degenerate inputs are mapped to a
/// null contribution rather than a division by zero).
pub open spec fn spec_cosine(p: Seq<i64>, q: Seq<i64>) -> int {
    let dot = dot_partial(p, q, p.len() as int);
    let ss1 = dot_partial(p, p, p.len() as int);
    let ss2 = dot_partial(q, q, q.len() as int);
    if ss1 == 0 || ss2 == 0 {
        0
    } else {
        let prod = spec_isqrt(ss1) * spec_isqrt(ss2);
        if dot >= prod {
            0
        } else {
            let d = (SCALE * (prod - dot)) / prod;
            if d > 2 * SCALE {
                2 * SCALE
            } else {
                d
            }
        }
    }
}

/// Correlation dissimilarity, scaled by `SCALE`: `SCALE` minus the scaled
/// Pearson coefficient, clamped to `[0, 2 * SCALE]`.  Degenerate inputs
/// (either vector of zero variance) are mapped to zero.
pub open spec fn spec_correlation(p: Seq<i64>, q: Seq<i64>) -> int {
    let n = p.len() as int;
    let cov = ccov_partial(p, q, n);
    let v1 = ccov_partial(p, p, n);
    let v2 = ccov_partial(q, q, n);
    if v1 == 0 || v2 == 0 {
        0
    } else {
        let sp = spec_isqrt(v1) * spec_isqrt(v2);
        if cov >= 0 {
            let r = (SCALE * cov) / sp;
            if r >= SCALE {
                0
            } else {
                SCALE - r
            }
        } else {
            let r = (SCALE * (-cov)) / sp;
            if r >= SCALE {
                2 * SCALE
            } else {
                SCALE + r
            }
        }
    }
}

/// What `Distance::measure` returns.
pub open spec fn spec_measure(d: Distance, p: Seq<i64>, q: Seq<i64>) -> int {
    match d {
        Distance::Manhattan => spec_manhattan(p, q),
        Distance::Euclidean => spec_euclidean(p, q),
        Distance::Cosine => spec_cosine(p, q),
        Distance::Correlation => spec_correlation(p, q),
    }
}

// ---------------------------------------------------------------------------
// Bounds of the partial sums.
// ---------------------------------------------------------------------------

pub proof fn lemma_sum_abs_bound(p: Seq<i64>, q: Seq<i64>, n: int)
    requires
        bounded_seq(p),
        bounded_seq(q),
        0 <= n <= p.len(),
        n <= q.len(),
    ensures
        0 <= sum_abs_partial(p, q, n) <= n * ABS_DIFF_MAX,
    decreases n,
{
    if n > 0 {
        lemma_sum_abs_bound(p, q, n - 1);
    }
}

pub proof fn lemma_sum_sq_bound(p: Seq<i64>, q: Seq<i64>, n: int)
    requires
        bounded_seq(p),
        bounded_seq(q),
        0 <= n <= p.len(),
        n <= q.len(),
    ensures
        0 <= sum_sq_diff_partial(p, q, n) <= n * DIFF_SQ_MAX,
    decreases n,
{
    if n > 0 {
        lemma_sum_sq_bound(p, q, n - 1);
        let d = p[n - 1] - q[n - 1];
        assert(0 <= d * d <= DIFF_SQ_MAX) by (nonlinear_arith)
            requires
                -ABS_DIFF_MAX <= d <= ABS_DIFF_MAX,
                ABS_DIFF_MAX == 2_097_152,
                DIFF_SQ_MAX == 4_398_046_511_104,
        ;
    }
}

pub proof fn lemma_dot_bound(p: Seq<i64>, q: Seq<i64>, n: int)
    requires
        bounded_seq(p),
        bounded_seq(q),
        0 <= n <= p.len(),
        n <= q.len(),
    ensures
        -(n * PROD_MAX) <= dot_partial(p, q, n) <= n * PROD_MAX,
    decreases n,
{
    if n > 0 {
        lemma_dot_bound(p, q, n - 1);
        let a = p[n - 1];
        let b = q[n - 1];
        assert(-PROD_MAX <= a * b <= PROD_MAX) by (nonlinear_arith)
            requires
                -COORD_MAX <= a <= COORD_MAX,
                -COORD_MAX <= b <= COORD_MAX,
                COORD_MAX == 1_048_576,
                PROD_MAX == 1_099_511_627_776,
        ;
    }
}

pub proof fn lemma_sum_bound(p: Seq<i64>, n: int)
    requires
        bounded_seq(p),
        0 <= n <= p.len(),
    ensures
        -(n * COORD_MAX) <= sum_partial(p, n) <= n * COORD_MAX,
    decreases n,
{
    if n > 0 {
        lemma_sum_bound(p, n - 1);
    }
}

pub proof fn lemma_centered_bound(p: Seq<i64>, j: int)
    requires
        bounded_seq(p),
        p.len() <= DIM_MAX,
        0 <= j < p.len(),
    ensures
        -CENTERED_MAX <= centered(p, j) <= CENTERED_MAX,
{
    let n = p.len() as int;
    lemma_sum_bound(p, n);
    assert(-1_073_741_824 <= n * p[j] <= 1_073_741_824) by (nonlinear_arith)
        requires
            0 <= n <= 1024,
            -COORD_MAX <= p[j] <= COORD_MAX,
            COORD_MAX == 1_048_576,
    ;
    assert(n * COORD_MAX <= 1_073_741_824) by (nonlinear_arith)
        requires
            0 <= n <= 1024,
            COORD_MAX == 1_048_576,
    ;
}

pub proof fn lemma_ccov_bound(p: Seq<i64>, q: Seq<i64>, n: int)
    requires
        bounded_seq(p),
        bounded_seq(q),
        p.len() == q.len(),
        p.len() <= DIM_MAX,
        0 <= n <= p.len(),
    ensures
        -(n * CPROD_MAX) <= ccov_partial(p, q, n) <= n * CPROD_MAX,
    decreases n,
{
    if n > 0 {
        lemma_ccov_bound(p, q, n - 1);
        lemma_centered_bound(p, n - 1);
        lemma_centered_bound(q, n - 1);
        let a = centered(p, n - 1);
        let b = centered(q, n - 1);
        assert(-CPROD_MAX <= a * b <= CPROD_MAX) by (nonlinear_arith)
            requires
                -CENTERED_MAX <= a <= CENTERED_MAX,
                -CENTERED_MAX <= b <= CENTERED_MAX,
                CENTERED_MAX == 2_147_483_648,
                CPROD_MAX == 4_611_686_018_427_387_904,
        ;
    }
}

pub proof fn lemma_dot_self_nonneg(p: Seq<i64>, n: int)
    requires
        0 <= n <= p.len(),
    ensures
        0 <= dot_partial(p, p, n),
    decreases n,
{
    if n > 0 {
        lemma_dot_self_nonneg(p, n - 1);
        let a = p[n - 1];
        assert(0 <= a * a) by (nonlinear_arith);
    }
}

pub proof fn lemma_cvar_nonneg(p: Seq<i64>, n: int)
    requires
        0 <= n <= p.len(),
    ensures
        0 <= ccov_partial(p, p, n),
    decreases n,
{
    if n > 0 {
        lemma_cvar_nonneg(p, n - 1);
        let a = centered(p, n - 1);
        assert(0 <= a * a) by (nonlinear_arith);
    }
}

/// The integer square root of a positive number is positive.
pub proof fn lemma_isqrt_pos(s: int)
    requires
        1 <= s,
    ensures
        1 <= spec_isqrt(s),
        spec_isqrt(s) * spec_isqrt(s) <= s,
{
    lemma_isqrt_exists(s);
}

// ---------------------------------------------------------------------------
// Range of the measures.
// ---------------------------------------------------------------------------

/// Every measure lies within `[0, DIST_MAX]` on valid inputs.
pub proof fn lemma_measure_range(d: Distance, p: Seq<i64>, q: Seq<i64>)
    requires
        valid_pair(p, q),
    ensures
        0 <= spec_measure(d, p, q) <= DIST_MAX,
{
    let n = p.len() as int;
    match d {
        Distance::Manhattan => {
            lemma_sum_abs_bound(p, q, n);
            assert(n * ABS_DIFF_MAX <= DIST_MAX) by (nonlinear_arith)
                requires
                    0 <= n <= 1024,
                    ABS_DIFF_MAX == 2_097_152,
                    DIST_MAX == 2_147_483_648,
            ;
        },
        Distance::Euclidean => {
            lemma_sum_sq_bound(p, q, n);
            let s = sum_sq_diff_partial(p, q, n);
            assert(n * DIFF_SQ_MAX <= SQSUM_MAX) by (nonlinear_arith)
                requires
                    0 <= n <= 1024,
                    DIFF_SQ_MAX == 4_398_046_511_104,
                    SQSUM_MAX == 4_503_599_627_370_496,
            ;
            lemma_isqrt_exists(s);
            let r = spec_isqrt(s);
            assert(r <= DIST_MAX) by (nonlinear_arith)
                requires
                    0 <= r,
                    r * r <= s,
                    s <= SQSUM_MAX,
                    SQSUM_MAX == 4_503_599_627_370_496,
                    DIST_MAX == 2_147_483_648,
            ;
        },
        Distance::Cosine => {
            lemma_cosine_range(p, q);
        },
        Distance::Correlation => {
            lemma_correlation_range(p, q);
        },
    }
}

proof fn lemma_cosine_range(p: Seq<i64>, q: Seq<i64>)
    requires
        valid_pair(p, q),
    ensures
        0 <= spec_cosine(p, q) <= 2 * SCALE,
{
    let n = p.len() as int;
    let dot = dot_partial(p, q, n);
    let ss1 = dot_partial(p, p, n);
    let ss2 = dot_partial(q, q, q.len() as int);
    lemma_dot_self_nonneg(p, n);
    lemma_dot_self_nonneg(q, q.len() as int);
    if ss1 == 0 || ss2 == 0 {
    } else {
        lemma_isqrt_pos(ss1);
        lemma_isqrt_pos(ss2);
        let r1 = spec_isqrt(ss1);
        let r2 = spec_isqrt(ss2);
        assert(1 <= r1 * r2) by (nonlinear_arith)
            requires
                1 <= r1,
                1 <= r2,
        ;
        let prod = r1 * r2;
        if dot >= prod {
        } else {
            let numer = SCALE * (prod - dot);
            vstd::arithmetic::div_mod::lemma_div_of0(prod);
            lemma_div_is_ordered(0, numer, prod);
        }
    }
}

proof fn lemma_correlation_range(p: Seq<i64>, q: Seq<i64>)
    requires
        valid_pair(p, q),
    ensures
        0 <= spec_correlation(p, q) <= 2 * SCALE,
{
    let n = p.len() as int;
    let cov = ccov_partial(p, q, n);
    let v1 = ccov_partial(p, p, n);
    let v2 = ccov_partial(q, q, n);
    lemma_cvar_nonneg(p, n);
    lemma_cvar_nonneg(q, n);
    if v1 == 0 || v2 == 0 {
    } else {
        lemma_isqrt_pos(v1);
        lemma_isqrt_pos(v2);
        let s1 = spec_isqrt(v1);
        let s2 = spec_isqrt(v2);
        assert(1 <= s1 * s2) by (nonlinear_arith)
            requires
                1 <= s1,
                1 <= s2,
        ;
        let sp = s1 * s2;
        vstd::arithmetic::div_mod::lemma_div_of0(sp);
        if cov >= 0 {
            lemma_div_is_ordered(0, SCALE * cov, sp);
        } else {
            lemma_div_is_ordered(0, SCALE * (-cov), sp);
        }
    }
}

// ---------------------------------------------------------------------------
// Executable measures.
// ---------------------------------------------------------------------------

#[verifier::loop_isolation(false)]
fn manhattan(p: &Vec<i64>, q: &Vec<i64>) -> (r: i64)
    requires
        valid_pair(p@, q@),
    ensures
        r == spec_manhattan(p@, q@),
{
    let n = p.len();
    let mut acc: i64 = 0;
    for i in 0..n
        invariant
            acc == sum_abs_partial(p@, q@, i as int),
            0 <= acc <= (i as int) * ABS_DIFF_MAX,
    {
        proof {
            lemma_sum_abs_bound(p@, q@, i as int + 1);
            assert((i as int + 1) * ABS_DIFF_MAX <= DIST_MAX) by (nonlinear_arith)
                requires
                    0 <= i as int + 1 <= 1024,
                    ABS_DIFF_MAX == 2_097_152,
                    DIST_MAX == 2_147_483_648,
            ;
        }
        let d = if p[i] >= q[i] {
            p[i] - q[i]
        } else {
            q[i] - p[i]
        };
        acc = acc + d;
    }
    acc
}

#[verifier::loop_isolation(false)]
fn euclidean(p: &Vec<i64>, q: &Vec<i64>) -> (r: i64)
    requires
        valid_pair(p@, q@),
    ensures
        r == spec_euclidean(p@, q@),
{
    let n = p.len();
    let mut acc: i64 = 0;
    for i in 0..n
        invariant
            acc == sum_sq_diff_partial(p@, q@, i as int),
            0 <= acc <= (i as int) * DIFF_SQ_MAX,
    {
        proof {
            lemma_sum_sq_bound(p@, q@, i as int + 1);
            assert((i as int + 1) * DIFF_SQ_MAX <= SQSUM_MAX) by (nonlinear_arith)
                requires
                    0 <= i as int + 1 <= 1024,
                    DIFF_SQ_MAX == 4_398_046_511_104,
                    SQSUM_MAX == 4_503_599_627_370_496,
            ;
        }
        let d = p[i] - q[i];
        proof {
            assert(0 <= d * d <= DIFF_SQ_MAX) by (nonlinear_arith)
                requires
                    -ABS_DIFF_MAX <= d <= ABS_DIFF_MAX,
                    ABS_DIFF_MAX == 2_097_152,
                    DIFF_SQ_MAX == 4_398_046_511_104,
            ;
        }
        acc = acc + d * d;
    }
    proof {
        assert(acc * 1 <= (n as int) * DIFF_SQ_MAX ==> acc <= SQSUM_MAX) by (nonlinear_arith)
            requires
                0 <= n <= 1024,
                DIFF_SQ_MAX == 4_398_046_511_104,
                SQSUM_MAX == 4_503_599_627_370_496,
        ;
    }
    let root = isqrt_u128(acc as u128);
    proof {
        assert(root <= DIST_MAX) by (nonlinear_arith)
            requires
                0 <= root,
                (root as int) * (root as int) <= acc as int,
                acc as int <= SQSUM_MAX,
                SQSUM_MAX == 4_503_599_627_370_496,
                DIST_MAX == 2_147_483_648,
        ;
    }
    root as i64
}

#[verifier::loop_isolation(false)]
fn cosine(p: &Vec<i64>, q: &Vec<i64>) -> (r: i64)
    requires
        valid_pair(p@, q@),
    ensures
        r == spec_cosine(p@, q@),
{
    let n = p.len();
    let mut dot: i64 = 0;
    let mut ss1: i64 = 0;
    let mut ss2: i64 = 0;
    for i in 0..n
        invariant
            dot == dot_partial(p@, q@, i as int),
            ss1 == dot_partial(p@, p@, i as int),
            ss2 == dot_partial(q@, q@, i as int),
            -((i as int) * PROD_MAX) <= dot <= (i as int) * PROD_MAX,
            0 <= ss1 <= (i as int) * PROD_MAX,
            0 <= ss2 <= (i as int) * PROD_MAX,
    {
        proof {
            lemma_dot_bound(p@, q@, i as int + 1);
            lemma_dot_bound(p@, p@, i as int + 1);
            lemma_dot_bound(q@, q@, i as int + 1);
            lemma_dot_self_nonneg(p@, i as int + 1);
            lemma_dot_self_nonneg(q@, i as int + 1);
            assert((i as int + 1) * PROD_MAX <= DOT_SUM_MAX) by (nonlinear_arith)
                requires
                    0 <= i as int + 1 <= 1024,
                    PROD_MAX == 1_099_511_627_776,
                    DOT_SUM_MAX == 1_125_899_906_842_624,
            ;
            let a = p@[i as int];
            let b = q@[i as int];
            assert(-PROD_MAX <= a * b <= PROD_MAX && 0 <= a * a <= PROD_MAX && 0 <= b * b
                <= PROD_MAX) by (nonlinear_arith)
                requires
                    -COORD_MAX <= a <= COORD_MAX,
                    -COORD_MAX <= b <= COORD_MAX,
                    COORD_MAX == 1_048_576,
                    PROD_MAX == 1_099_511_627_776,
            ;
        }
        dot = dot + p[i] * q[i];
        ss1 = ss1 + p[i] * p[i];
        ss2 = ss2 + q[i] * q[i];
    }
    if ss1 == 0 || ss2 == 0 {
        return 0;
    }
    proof {
        assert(ss1 * 1 <= (n as int) * PROD_MAX ==> ss1 <= DOT_SUM_MAX) by (nonlinear_arith)
            requires
                0 <= n <= 1024,
                PROD_MAX == 1_099_511_627_776,
                DOT_SUM_MAX == 1_125_899_906_842_624,
        ;
        assert(ss2 * 1 <= (n as int) * PROD_MAX ==> ss2 <= DOT_SUM_MAX) by (nonlinear_arith)
            requires
                0 <= n <= 1024,
                PROD_MAX == 1_099_511_627_776,
                DOT_SUM_MAX == 1_125_899_906_842_624,
        ;
        assert(dot * 1 <= (n as int) * PROD_MAX ==> dot <= DOT_SUM_MAX) by (nonlinear_arith)
            requires
                0 <= n <= 1024,
                PROD_MAX == 1_099_511_627_776,
                DOT_SUM_MAX == 1_125_899_906_842_624,
        ;
        assert(-((n as int) * PROD_MAX) <= dot ==> -DOT_SUM_MAX <= dot) by (nonlinear_arith)
            requires
                0 <= n <= 1024,
                PROD_MAX == 1_099_511_627_776,
                DOT_SUM_MAX == 1_125_899_906_842_624,
        ;
    }
    let n1 = isqrt_u128(ss1 as u128);
    let n2 = isqrt_u128(ss2 as u128);
    proof {
        lemma_isqrt_pos(ss1 as int);
        lemma_isqrt_pos(ss2 as int);
        assert(n1 < 0x8000000u128 && n2 < 0x8000000u128) by (nonlinear_arith)
            requires
                0 <= n1,
                0 <= n2,
                (n1 as int) * (n1 as int) <= ss1 as int,
                (n2 as int) * (n2 as int) <= ss2 as int,
                ss1 as int <= DOT_SUM_MAX,
                ss2 as int <= DOT_SUM_MAX,
                DOT_SUM_MAX == 1_125_899_906_842_624,
        ;
        assert((n1 as int) * (n2 as int) < 0x40000000000000int && 1 <= (n1 as int) * (
        n2 as int)) by (nonlinear_arith)
            requires
                1 <= n1 < 0x8000000u128,
                1 <= n2 < 0x8000000u128,
        ;
    }
    let prod: u128 = n1 * n2;
    if dot >= 0 && dot as u128 >= prod {
        return 0;
    }
    let diff: u128 = if dot >= 0 {
        prod - (dot as u128)
    } else {
        prod + ((-dot) as u128)
    };
    let numer: u128 = (SCALE as u128) * diff;
    let quot: u128 = numer / prod;
    proof {
        lemma_div_is_ordered(0, numer as int, prod as int);
        vstd::arithmetic::div_mod::lemma_div_of0(prod as int);
    }
    if quot > (2 * SCALE) as u128 {
        2 * SCALE
    } else {
        quot as i64
    }
}

#[verifier::loop_isolation(false)]
fn correlation(p: &Vec<i64>, q: &Vec<i64>) -> (r: i64)
    requires
        valid_pair(p@, q@),
    ensures
        r == spec_correlation(p@, q@),
{
    let n = p.len();
    let mut sx: i64 = 0;
    let mut sy: i64 = 0;
    for i in 0..n
        invariant
            sx == sum_partial(p@, i as int),
            sy == sum_partial(q@, i as int),
            -((i as int) * COORD_MAX) <= sx <= (i as int) * COORD_MAX,
            -((i as int) * COORD_MAX) <= sy <= (i as int) * COORD_MAX,
    {
        proof {
            lemma_sum_bound(p@, i as int + 1);
            lemma_sum_bound(q@, i as int + 1);
            assert((i as int + 1) * COORD_MAX <= 1_073_741_824) by (nonlinear_arith)
                requires
                    0 <= i as int + 1 <= 1024,
                    COORD_MAX == 1_048_576,
            ;
        }
        sx = sx + p[i];
        sy = sy + q[i];
    }
    proof {
        assert(n as int * COORD_MAX <= 1_073_741_824) by (nonlinear_arith)
            requires
                0 <= n <= 1024,
                COORD_MAX == 1_048_576,
        ;
    }
    let nn = n as i64;
    let mut cov: i128 = 0;
    let mut v1: i128 = 0;
    let mut v2: i128 = 0;
    for i in 0..n
        invariant
            cov == ccov_partial(p@, q@, i as int),
            v1 == ccov_partial(p@, p@, i as int),
            v2 == ccov_partial(q@, q@, i as int),
            -((i as int) * CPROD_MAX) <= cov <= (i as int) * CPROD_MAX,
            0 <= v1 <= (i as int) * CPROD_MAX,
            0 <= v2 <= (i as int) * CPROD_MAX,
            sx == sum_partial(p@, n as int),
            sy == sum_partial(q@, n as int),
            -1_073_741_824 <= sx <= 1_073_741_824,
            -1_073_741_824 <= sy <= 1_073_741_824,
    {
        proof {
            assert(-1_073_741_824 <= (nn as int) * (p@[i as int] as int) <= 1_073_741_824
                && -1_073_741_824 <= (nn as int) * (q@[i as int] as int) <= 1_073_741_824)
                by (nonlinear_arith)
                requires
                    0 <= nn <= 1024,
                    -COORD_MAX <= p@[i as int] <= COORD_MAX,
                    -COORD_MAX <= q@[i as int] <= COORD_MAX,
                    COORD_MAX == 1_048_576,
            ;
        }
        let c: i64 = nn * p[i] - sx;
        let d: i64 = nn * q[i] - sy;
        proof {
            assert(c == centered(p@, i as int));
            assert(d == centered(q@, i as int));
            lemma_ccov_bound(p@, q@, i as int + 1);
            lemma_ccov_bound(p@, p@, i as int + 1);
            lemma_ccov_bound(q@, q@, i as int + 1);
            lemma_cvar_nonneg(p@, i as int + 1);
            lemma_cvar_nonneg(q@, i as int + 1);
            assert(0 <= (i as int + 1) * CPROD_MAX <= CCOV_MAX) by (nonlinear_arith)
                requires
                    0 <= i as int + 1 <= 1024,
                    CPROD_MAX == 4_611_686_018_427_387_904,
                    CCOV_MAX == 4_722_366_482_869_645_213_696,
            ;
            assert(-CPROD_MAX <= (c as int) * (d as int) <= CPROD_MAX && 0 <= (c as int) * (
            c as int) <= CPROD_MAX && 0 <= (d as int) * (d as int) <= CPROD_MAX)
                by (nonlinear_arith)
                requires
                    -CENTERED_MAX <= c <= CENTERED_MAX,
                    -CENTERED_MAX <= d <= CENTERED_MAX,
                    CENTERED_MAX == 2_147_483_648,
                    CPROD_MAX == 4_611_686_018_427_387_904,
            ;
            assert((i as int) * CPROD_MAX <= CCOV_MAX && -(CCOV_MAX as int) <= -((
            i as int) * CPROD_MAX)) by (nonlinear_arith)
                requires
                    0 <= i as int <= 1024,
                    CPROD_MAX == 4_611_686_018_427_387_904,
                    CCOV_MAX == 4_722_366_482_869_645_213_696,
            ;
        }
        cov = cov + (c as i128) * (d as i128);
        v1 = v1 + (c as i128) * (c as i128);
        v2 = v2 + (d as i128) * (d as i128);
    }
    if v1 == 0 || v2 == 0 {
        return 0;
    }
    proof {
        assert((n as int) * CPROD_MAX <= CCOV_MAX && -(CCOV_MAX as int) <= -((n as int)
            * CPROD_MAX)) by (nonlinear_arith)
            requires
                0 <= n <= 1024,
                CPROD_MAX == 4_611_686_018_427_387_904,
                CCOV_MAX == 4_722_366_482_869_645_213_696,
        ;
    }
    let s1 = isqrt_u128(v1 as u128);
    let s2 = isqrt_u128(v2 as u128);
    proof {
        lemma_isqrt_pos(v1 as int);
        lemma_isqrt_pos(v2 as int);
        assert(s1 < 0x2000000000u128 && s2 < 0x2000000000u128) by (nonlinear_arith)
            requires
                0 <= s1,
                0 <= s2,
                (s1 as int) * (s1 as int) <= v1 as int,
                (s2 as int) * (s2 as int) <= v2 as int,
                v1 as int <= CCOV_MAX,
                v2 as int <= CCOV_MAX,
                CCOV_MAX == 4_722_366_482_869_645_213_696,
        ;
        assert((s1 as int) * (s2 as int) < 0x4000000000000000000int && 1 <= (s1 as int) * (
        s2 as int)) by (nonlinear_arith)
            requires
                1 <= s1 < 0x2000000000u128,
                1 <= s2 < 0x2000000000u128,
        ;
    }
    let sp: u128 = s1 * s2;
    proof {
        vstd::arithmetic::div_mod::lemma_div_of0(sp as int);
    }
    if cov >= 0 {
        let num: u128 = (SCALE as u128) * (cov as u128);
        let quot: u128 = num / sp;
        proof {
            lemma_div_is_ordered(0, num as int, sp as int);
        }
        if quot >= SCALE as u128 {
            0
        } else {
            SCALE - (quot as i64)
        }
    } else {
        let num: u128 = (SCALE as u128) * ((-cov) as u128);
        let quot: u128 = num / sp;
        proof {
            lemma_div_is_ordered(0, num as int, sp as int);
        }
        if quot >= SCALE as u128 {
            2 * SCALE
        } else {
            SCALE + (quot as i64)
        }
    }
}

// ---------------------------------------------------------------------------
// Truncating division.
// ---------------------------------------------------------------------------

/// Division rounded toward zero, as the solver steps use it.
pub open spec fn div_trunc(a: int, b: int) -> int {
    if a >= 0 {
        a / b
    } else {
        -((-a) / b)
    }
}

/// Dividing by a positive divisor keeps a symmetric magnitude bound.
pub proof fn lemma_div_trunc_bound(a: int, b: int, m: int)
    requires
        0 < b,
        0 <= m,
        -(b * m) <= a <= b * m,
    ensures
        -m <= div_trunc(a, b) <= m,
{
    lemma_div_multiples_vanish(m, b);
    if a >= 0 {
        lemma_div_is_ordered(a, b * m, b);
        vstd::arithmetic::div_mod::lemma_div_of0(b);
        lemma_div_is_ordered(0, a, b);
    } else {
        lemma_div_is_ordered(-a, b * m, b);
        vstd::arithmetic::div_mod::lemma_div_of0(b);
        lemma_div_is_ordered(0, -a, b);
    }
}

/// Dividing an exact multiple recovers the factor.
pub proof fn lemma_div_trunc_exact_multiple(x: int, w: int)
    requires
        0 < w,
    ensures
        div_trunc(w * x, w) == x,
{
    if x >= 0 {
        assert(w * x >= 0) by (nonlinear_arith)
            requires
                0 < w,
                0 <= x,
        ;
        lemma_div_multiples_vanish(x, w);
    } else {
        assert(w * x < 0) by (nonlinear_arith)
            requires
                0 < w,
                x < 0,
        ;
        assert(-(w * x) == w * (-x)) by (nonlinear_arith);
        lemma_div_multiples_vanish(-x, w);
    }
}

/// Division by one changes nothing.
pub proof fn lemma_div_trunc_one(a: int)
    ensures
        div_trunc(a, 1) == a,
{
    vstd::arithmetic::div_mod::lemma_div_basics(a);
    vstd::arithmetic::div_mod::lemma_div_basics(-a);
}

/// Truncating division on machine integers.
pub fn div_trunc_i64(a: i64, b: i64) -> (r: i64)
    requires
        0 < b,
        -0x4000_0000_0000_0000 <= a <= 0x4000_0000_0000_0000,
    ensures
        r == div_trunc(a as int, b as int),
{
    if a >= 0 {
        let q: u64 = (a as u64) / (b as u64);
        proof {
            vstd::arithmetic::div_mod::lemma_div_nonincreasing(a as int, b as int);
            vstd::arithmetic::div_mod::lemma_div_of0(b as int);
            lemma_div_is_ordered(0, a as int, b as int);
        }
        q as i64
    } else {
        let m: u64 = (-a) as u64;
        let q: u64 = m / (b as u64);
        proof {
            vstd::arithmetic::div_mod::lemma_div_nonincreasing(m as int, b as int);
            vstd::arithmetic::div_mod::lemma_div_of0(b as int);
            lemma_div_is_ordered(0, m as int, b as int);
        }
        -(q as i64)
    }
}

// ---------------------------------------------------------------------------
// Metric axioms.
// ---------------------------------------------------------------------------

proof fn lemma_sum_abs_self_zero(p: Seq<i64>, n: int)
    requires
        0 <= n <= p.len(),
    ensures
        sum_abs_partial(p, p, n) == 0,
    decreases n,
{
    if n > 0 {
        lemma_sum_abs_self_zero(p, n - 1);
    }
}

proof fn lemma_sum_sq_self_zero(p: Seq<i64>, n: int)
    requires
        0 <= n <= p.len(),
    ensures
        sum_sq_diff_partial(p, p, n) == 0,
    decreases n,
{
    if n > 0 {
        lemma_sum_sq_self_zero(p, n - 1);
    }
}

proof fn lemma_sum_abs_sym(p: Seq<i64>, q: Seq<i64>, n: int)
    requires
        0 <= n <= p.len(),
        n <= q.len(),
    ensures
        sum_abs_partial(p, q, n) == sum_abs_partial(q, p, n),
    decreases n,
{
    if n > 0 {
        lemma_sum_abs_sym(p, q, n - 1);
    }
}

proof fn lemma_sum_sq_sym(p: Seq<i64>, q: Seq<i64>, n: int)
    requires
        0 <= n <= p.len(),
        n <= q.len(),
    ensures
        sum_sq_diff_partial(p, q, n) == sum_sq_diff_partial(q, p, n),
    decreases n,
{
    if n > 0 {
        lemma_sum_sq_sym(p, q, n - 1);
        let a = p[n - 1];
        let b = q[n - 1];
        assert((a - b) * (a - b) == (b - a) * (b - a)) by (nonlinear_arith);
    }
}

proof fn lemma_dot_sym(p: Seq<i64>, q: Seq<i64>, n: int)
    requires
        0 <= n <= p.len(),
        n <= q.len(),
    ensures
        dot_partial(p, q, n) == dot_partial(q, p, n),
    decreases n,
{
    if n > 0 {
        lemma_dot_sym(p, q, n - 1);
        let a = p[n - 1];
        let b = q[n - 1];
        assert(a * b == b * a) by (nonlinear_arith);
    }
}

proof fn lemma_ccov_sym(p: Seq<i64>, q: Seq<i64>, n: int)
    requires
        0 <= n <= p.len(),
        n <= q.len(),
    ensures
        ccov_partial(p, q, n) == ccov_partial(q, p, n),
    decreases n,
{
    if n > 0 {
        lemma_ccov_sym(p, q, n - 1);
        let a = centered(p, n - 1);
        let b = centered(q, n - 1);
        assert(a * b == b * a) by (nonlinear_arith);
    }
}

/// Identity of indiscernibles, in the direction every measure satisfies:
/// the dissimilarity of a vector to itself is zero.  Under Cosine and
/// Correlation this includes the degenerate inputs, which are mapped to
/// zero by definition.
pub proof fn lemma_measure_self_zero(d: Distance, p: Seq<i64>)
    requires
        bounded_seq(p),
        p.len() <= DIM_MAX,
    ensures
        spec_measure(d, p, p) == 0,
{
    let n = p.len() as int;
    match d {
        Distance::Manhattan => {
            lemma_sum_abs_self_zero(p, n);
        },
        Distance::Euclidean => {
            lemma_sum_sq_self_zero(p, n);
            lemma_isqrt_unique(0, 0);
        },
        Distance::Cosine => {
            let ss = dot_partial(p, p, n);
            lemma_dot_self_nonneg(p, n);
            if ss != 0 {
                lemma_isqrt_pos(ss);
            }
        },
        Distance::Correlation => {
            let v = ccov_partial(p, p, n);
            lemma_cvar_nonneg(p, n);
            if v != 0 {
                lemma_isqrt_pos(v);
                let sq = spec_isqrt(v);
                let sp = sq * sq;
                assert(1 <= sq * sq) by (nonlinear_arith)
                    requires
                        1 <= sq,
                ;
                assert(SCALE * sp <= SCALE * v) by (nonlinear_arith)
                    requires
                        sp <= v,
                        SCALE == 1_000_000,
                ;
                lemma_div_is_ordered(SCALE * sp, SCALE * v, sp);
                lemma_div_multiples_vanish(SCALE as int, sp);
                assert(sp * SCALE == SCALE * sp) by (nonlinear_arith);
            }
        },
    }
}

/// Every measure is symmetric in its two arguments.
pub proof fn lemma_measure_symmetric(d: Distance, p: Seq<i64>, q: Seq<i64>)
    requires
        valid_pair(p, q),
    ensures
        spec_measure(d, p, q) == spec_measure(d, q, p),
{
    let n = p.len() as int;
    match d {
        Distance::Manhattan => {
            lemma_sum_abs_sym(p, q, n);
        },
        Distance::Euclidean => {
            lemma_sum_sq_sym(p, q, n);
        },
        Distance::Cosine => {
            lemma_dot_sym(p, q, n);
            let r1 = spec_isqrt(dot_partial(p, p, n));
            let r2 = spec_isqrt(dot_partial(q, q, n));
            assert(r1 * r2 == r2 * r1) by (nonlinear_arith);
        },
        Distance::Correlation => {
            lemma_ccov_sym(p, q, n);
            let s1 = spec_isqrt(ccov_partial(p, p, n));
            let s2 = spec_isqrt(ccov_partial(q, q, n));
            assert(s1 * s2 == s2 * s1) by (nonlinear_arith);
        },
    }
}

impl Distance {
    /// The dissimilarity of `p` and `q` under this measure.
    ///
    /// The result equals `spec_measure` exactly; it is symmetric, zero on
    /// identical inputs and bounded by `DIST_MAX`.
    pub fn measure(&self, p: &Vec<i64>, q: &Vec<i64>) -> (r: i64)
        requires
            valid_pair(p@, q@),
        ensures
            r == spec_measure(*self, p@, q@),
            0 <= r <= DIST_MAX,
    {
        proof {
            lemma_measure_range(*self, p@, q@);
        }
        match self {
            Distance::Manhattan => manhattan(p, q),
            Distance::Euclidean => euclidean(p, q),
            Distance::Cosine => cosine(p, q),
            Distance::Correlation => correlation(p, q),
        }
    }
}

} // verus!
