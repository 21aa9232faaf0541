//! The per-point solver: a point is walked step by step toward the damped
//! average of its nearest sampled neighbours until its trajectory
//! stabilises, and repeated independent descents of one point are combined
//! into an average position and an uncertainty score.

use vstd::prelude::*;
use rand::rngs::StdRng;

verus! {

use crate::{COORD_MAX, DIM_MAX, ROWS_MAX, SCALE, DIST_MAX, HISTORY_CAP};
use crate::error::GravityError;
use crate::matrix::{Matrix, all_rows_equal};
use crate::metric::{
    Distance, bounded_seq, spec_measure, div_trunc, div_trunc_i64, lemma_div_trunc_bound,
    lemma_div_trunc_one, lemma_measure_self_zero,
};
use crate::params::{Parameters, params_valid};
use crate::rng::{rng_from_seed, sample_indices};

/// Sum over `u < t` of entry `(sel[u], j)` of `m`.
pub open spec fn sum_sel(m: Matrix, sel: Seq<int>, j: int, t: int) -> int
    decreases t,
{
    if t <= 0 {
        0
    } else {
        sum_sel(m, sel, j, t - 1) + m.entry(sel[t - 1], j)
    }
}

/// Coordinate `j` of the average of the selected rows, rounded toward
/// zero.
pub open spec fn avg_entry(m: Matrix, sel: Seq<int>, j: int) -> int {
    div_trunc(sum_sel(m, sel, j, sel.len() as int), sel.len() as int)
}

/// Coordinate blend of the current position with the candidate: the
/// current coordinate keeps weight `SCALE - f`, the candidate gets `f`.
pub open spec fn blend_entry(cur: int, cand: int, f: int) -> int {
    div_trunc(cur * (SCALE - f) + cand * f, SCALE as int)
}

/// `p` is a step candidate for the point `id` at position `cur`: it blends
/// `cur` with the average of between one and `smoothing` rows of `m`, each
/// a point other than `id` at nonzero distance from `cur`.
#[verifier::opaque]
pub open spec fn is_step_candidate(
    m: Matrix,
    id: int,
    smoothing: int,
    dist: Distance,
    f: int,
    cur: Seq<i64>,
    sel: Seq<int>,
    p: Seq<i64>,
) -> bool {
    &&& 1 <= sel.len() <= smoothing
    &&& forall|t: int|
        0 <= t < sel.len() ==> 0 <= #[trigger] sel[t] < m.rows && sel[t] != id && spec_measure(
            dist,
            cur,
            m.row_seq(sel[t]),
        ) > 0
    &&& p.len() == cur.len()
    &&& forall|j: int|
        0 <= j < p.len() ==> #[trigger] p[j] == blend_entry(
            cur[j] as int,
            avg_entry(m, sel, j),
            f,
        )
}

/// How many entries of the first `t` of `draw` sit at nonzero distance
/// from `cur` — the valid neighbours of the draw.
pub open spec fn valid_count(m: Matrix, dist: Distance, cur: Seq<i64>, draw: Seq<int>, t: int) -> int
    decreases t,
{
    if t <= 0 {
        0
    } else {
        valid_count(m, dist, cur, draw, t - 1) + if spec_measure(dist, cur, m.row_seq(draw[t - 1]))
            > 0 {
            1int
        } else {
            0int
        }
    }
}

/// `x` occurs in `sel`.
pub open spec fn sel_has(sel: Seq<int>, x: int) -> bool {
    exists|u: int| 0 <= u < sel.len() && sel[u] == x
}

/// `sel` is the nearest-`smoothing` selection of the draw: the draw has
/// `subsample` distinct admissible entries, `sel` is a distinct subset of
/// its valid entries, as many as the draw affords up to `smoothing`, and
/// no selected entry is farther from `cur` than an unselected valid one.
#[verifier::opaque]
pub open spec fn is_nearest_draw(
    m: Matrix,
    subsample: int,
    smoothing: int,
    id: int,
    dist: Distance,
    cur: Seq<i64>,
    draw: Seq<int>,
    sel: Seq<int>,
) -> bool {
    &&& draw.len() == subsample
    &&& forall|w: int| 0 <= w < draw.len() ==> 0 <= #[trigger] draw[w] < m.rows && draw[w] != id
    &&& forall|w1: int, w2: int| 0 <= w1 < w2 < draw.len() ==> draw[w1] != draw[w2]
    &&& forall|t1: int, t2: int| 0 <= t1 < t2 < sel.len() ==> sel[t1] != sel[t2]
    &&& forall|t: int| 0 <= t < sel.len() ==> sel_has(draw, #[trigger] sel[t])
    &&& sel.len() == (if valid_count(m, dist, cur, draw, draw.len() as int) < smoothing {
        valid_count(m, dist, cur, draw, draw.len() as int)
    } else {
        smoothing
    })
    &&& forall|w: int, t: int|
        #![trigger draw[w], sel[t]]
        0 <= w < draw.len() && 0 <= t < sel.len() && spec_measure(dist, cur, m.row_seq(draw[w]))
            > 0 && !sel_has(sel, draw[w]) ==> spec_measure(dist, cur, m.row_seq(sel[t]))
            <= spec_measure(dist, cur, m.row_seq(draw[w]))
}

/// Some admissible draw makes `sel` its nearest-`smoothing` selection.
pub open spec fn from_nearest_draw(
    m: Matrix,
    subsample: int,
    smoothing: int,
    id: int,
    dist: Distance,
    cur: Seq<i64>,
    sel: Seq<int>,
) -> bool {
    exists|draw: Seq<int>|
        #[trigger] is_nearest_draw(m, subsample, smoothing, id, dist, cur, draw, sel)
}

/// Everything `step_from` promises of a step it returns: a bounded
/// position of the right width at nonzero distance from `cur`, built as a
/// step candidate from some selection of sampled points.
pub open spec fn step_sound(pre: Pathfinder, m: Matrix, cur: Seq<i64>, p: Seq<i64>, d: i64) -> bool {
    &&& p.len() == pre.features
    &&& bounded_seq(p)
    &&& 0 < d <= DIST_MAX
    &&& d == spec_measure(pre.distance, p, cur)
    &&& exists|sel: Seq<int>|
        #[trigger] is_step_candidate(
            m,
            pre.id as int,
            pre.smoothing as int,
            pre.distance,
            pre.scaling_factor as int,
            cur,
            sel,
            p,
        ) && from_nearest_draw(
            m,
            pre.subsample as int,
            pre.smoothing as int,
            pre.id as int,
            pre.distance,
            cur,
            sel,
        )
}

/// `p` is reachable from `cur` by exactly `steps` solver steps, each a
/// step candidate blending its predecessor.
pub open spec fn descends_to(
    m: Matrix,
    id: int,
    smoothing: int,
    dist: Distance,
    f: int,
    cur: Seq<i64>,
    p: Seq<i64>,
    steps: nat,
) -> bool
    decreases steps,
{
    if steps == 0 {
        cur == p
    } else {
        exists|mid: Seq<i64>, sel: Seq<int>|
            #[trigger] is_step_candidate(m, id, smoothing, dist, f, cur, sel, mid)
                && descends_to(m, id, smoothing, dist, f, mid, p, (steps - 1) as nat)
    }
}

/// `p` is a possible end of one descent of point `id`: the point's own
/// row, or the last of a chain of step candidates starting there.
pub open spec fn descent_end(
    m: Matrix,
    id: int,
    smoothing: int,
    dist: Distance,
    f: int,
    p: Seq<i64>,
) -> bool {
    exists|steps: nat| #[trigger] descends_to(m, id, smoothing, dist, f, m.row_seq(id), p, steps)
}

/// A chain may be extended by one more step at its end.
proof fn lemma_descends_append(
    m: Matrix,
    id: int,
    smoothing: int,
    dist: Distance,
    f: int,
    a: Seq<i64>,
    b: Seq<i64>,
    c: Seq<i64>,
    sel: Seq<int>,
    steps: nat,
)
    requires
        descends_to(m, id, smoothing, dist, f, a, b, steps),
        is_step_candidate(m, id, smoothing, dist, f, b, sel, c),
    ensures
        descends_to(m, id, smoothing, dist, f, a, c, (steps + 1) as nat),
    decreases steps,
{
    if steps == 0 {
        assert(descends_to(m, id, smoothing, dist, f, c, c, 0));
        assert(is_step_candidate(m, id, smoothing, dist, f, a, sel, c));
    } else {
        let (mid, sel0): (Seq<i64>, Seq<int>) = choose|mid: Seq<i64>, sel0: Seq<int>|
            #[trigger] is_step_candidate(m, id, smoothing, dist, f, a, sel0, mid)
                && descends_to(m, id, smoothing, dist, f, mid, b, (steps - 1) as nat);
        lemma_descends_append(m, id, smoothing, dist, f, mid, b, c, sel, (steps - 1) as nat);
        assert(is_step_candidate(m, id, smoothing, dist, f, a, sel0, mid)
            && descends_to(m, id, smoothing, dist, f, mid, c, steps));
    }
}

/// Sum over `t < n` of the distances from the trial endpoints to `avg`.
pub open spec fn endpoint_dev_sum(es: Seq<Seq<i64>>, avg: Seq<i64>, dist: Distance, n: int) -> int
    decreases n,
{
    if n <= 0 {
        0
    } else {
        endpoint_dev_sum(es, avg, dist, n - 1) + spec_measure(dist, es[n - 1], avg)
    }
}

/// The trial endpoints `es` explain the ensemble result: every endpoint
/// ends a descent of point `id`, `avg` is their truncated coordinate-wise
/// mean, and `deviation` their truncated mean distance to `avg`.
#[verifier::opaque]
pub open spec fn is_ensemble(
    m: Matrix,
    id: int,
    smoothing: int,
    dist: Distance,
    f: int,
    trials: int,
    es: Seq<Seq<i64>>,
    avg: Seq<i64>,
    deviation: i64,
) -> bool {
    &&& es.len() == trials
    &&& forall|t: int|
        0 <= t < es.len() ==> descent_end(m, id, smoothing, dist, f, #[trigger] es[t])
    &&& avg.len() == m.cols
    &&& forall|j: int|
        0 <= j < avg.len() ==> (#[trigger] avg[j]) as int == div_trunc(
            Pathfinder::col_sum(es, j, trials),
            trials,
        )
    &&& deviation as int == div_trunc(endpoint_dev_sum(es, avg, dist, trials), trials)
}

/// Some set of trial endpoints explains the ensemble result.
pub open spec fn ensemble_outcome(
    m: Matrix,
    id: int,
    smoothing: int,
    dist: Distance,
    f: int,
    trials: int,
    avg: Seq<i64>,
    deviation: i64,
) -> bool {
    exists|es: Seq<Seq<i64>>|
        #[trigger] is_ensemble(m, id, smoothing, dist, f, trials, es, avg, deviation)
}

/// Over identical rows a descent cannot move: every step needs a sampled
/// neighbour at nonzero distance, and there is none, so the only
/// reachable end is the point's own row.
pub proof fn lemma_descent_identical(
    m: Matrix,
    id: int,
    smoothing: int,
    dist: Distance,
    f: int,
    p: Seq<i64>,
)
    requires
        m.wf(),
        all_rows_equal(m),
        0 <= id < m.rows,
        descent_end(m, id, smoothing, dist, f, p),
    ensures
        p == m.row_seq(id),
{
    let k = choose|k: nat| descends_to(m, id, smoothing, dist, f, m.row_seq(id), p, k);
    if k == 0 {
    } else {
        let (mid, sel): (Seq<i64>, Seq<int>) = choose|mid: Seq<i64>, sel: Seq<int>|
            #[trigger] is_step_candidate(m, id, smoothing, dist, f, m.row_seq(id), sel, mid)
                && descends_to(m, id, smoothing, dist, f, mid, p, (k - 1) as nat);
        reveal(is_step_candidate);
        m.lemma_row_valid(id);
        m.lemma_row_valid(sel[0]);
        assert(m.row_seq(sel[0]) == m.row_seq(id));
        lemma_measure_self_zero(dist, m.row_seq(id));
        assert(false);
    }
}

/// Summing one column of identical trial endpoints.
proof fn lemma_col_sum_identical(es: Seq<Seq<i64>>, row: Seq<i64>, j: int, t: int)
    requires
        0 <= t <= es.len(),
        forall|u: int| 0 <= u < es.len() ==> #[trigger] es[u] == row,
        0 <= j < row.len(),
    ensures
        Pathfinder::col_sum(es, j, t) == t * row[j],
    decreases t,
{
    if t <= 0 {
        assert(0int * row[j] == 0) by (nonlinear_arith);
    } else {
        lemma_col_sum_identical(es, row, j, t - 1);
        let x = row[j] as int;
        assert((t - 1) * x + x == t * x) by (nonlinear_arith);
    }
}

/// Trial endpoints equal to the average contribute no deviation.
proof fn lemma_dev_sum_identical(es: Seq<Seq<i64>>, avg: Seq<i64>, dist: Distance, t: int)
    requires
        0 <= t <= es.len(),
        forall|u: int| 0 <= u < es.len() ==> #[trigger] es[u] == avg,
        bounded_seq(avg),
        avg.len() <= DIM_MAX,
    ensures
        endpoint_dev_sum(es, avg, dist, t) == 0,
    decreases t,
{
    if t > 0 {
        lemma_dev_sum_identical(es, avg, dist, t - 1);
        lemma_measure_self_zero(dist, avg);
    }
}

/// Over identical rows every ensemble outcome is frozen: the average is
/// the point's own row and the deviation is zero.
pub proof fn lemma_ensemble_identical(
    m: Matrix,
    id: int,
    smoothing: int,
    dist: Distance,
    f: int,
    trials: int,
    avg: Seq<i64>,
    deviation: i64,
)
    requires
        m.wf(),
        all_rows_equal(m),
        0 <= id < m.rows,
        1 <= trials,
        ensemble_outcome(m, id, smoothing, dist, f, trials, avg, deviation),
    ensures
        avg == m.row_seq(id),
        deviation == 0,
{
    let es = choose|es: Seq<Seq<i64>>|
        #[trigger] is_ensemble(m, id, smoothing, dist, f, trials, es, avg, deviation);
    reveal(is_ensemble);
    m.lemma_row_valid(id);
    assert forall|u: int| 0 <= u < es.len() implies #[trigger] es[u] == m.row_seq(id) by {
        lemma_descent_identical(m, id, smoothing, dist, f, es[u]);
    }
    assert forall|j: int| 0 <= j < m.cols implies avg[j] == m.row_seq(id)[j] by {
        lemma_col_sum_identical(es, m.row_seq(id), j, trials);
        crate::metric::lemma_div_trunc_exact_multiple(m.row_seq(id)[j] as int, trials);
    }
    assert(avg =~= m.row_seq(id));
    assert forall|u: int| 0 <= u < es.len() implies #[trigger] es[u] == avg by {}
    lemma_dev_sum_identical(es, avg, dist, trials);
    vstd::arithmetic::div_mod::lemma_div_of0(trials);
}

/// The default per-step sample size for a dataset of `n` points:
/// `n / 10`, kept between 2 and 1000, and never more than the `n - 1`
/// other points.
pub open spec fn spec_default_subsample(n: int) -> int {
    if n <= 1 {
        0
    } else {
        let base = if n / 10 < 2 {
            2
        } else if n / 10 > 1000 {
            1000
        } else {
            n / 10
        };
        if base > n - 1 {
            n - 1
        } else {
            base
        }
    }
}

/// The sample size actually used: the override clamped to the other
/// points, or the default rule.
pub open spec fn spec_effective_subsample(o: Option<usize>, n: int) -> int {
    match o {
        Some(s) => if s as int > n - 1 {
            n - 1
        } else {
            s as int
        },
        None => spec_default_subsample(n),
    }
}

/// The default per-step sample size.
pub fn default_subsample(n: usize) -> (r: usize)
    ensures
        r == spec_default_subsample(n as int),
{
    if n <= 1 {
        0
    } else {
        let tenth = n / 10;
        let base = if tenth < 2 {
            2
        } else if tenth > 1000 {
            1000
        } else {
            tenth
        };
        if base > n - 1 {
            n - 1
        } else {
            base
        }
    }
}

/// Copies a coordinate vector.
fn copy_vec(v: &Vec<i64>) -> (r: Vec<i64>)
    ensures
        r@ == v@,
{
    let mut out: Vec<i64> = Vec::new();
    let n = v.len();
    for i in 0..n
        invariant
            n == v@.len(),
            out@.len() == i,
            forall|t: int| 0 <= t < i ==> out@[t] == v@[t],
    {
        out.push(v[i]);
    }
    proof {
        assert(out@ =~= v@);
    }
    out
}

/// Blends `current` with the average of the selected rows under the
/// damping fraction `f`.
#[verifier::loop_isolation(false)]
fn build_candidate(
    positions: &Matrix,
    nearest: &Vec<(usize, i64)>,
    current: &Vec<i64>,
    f: i64,
) -> (p: Vec<i64>)
    requires
        positions.wf(),
        1 <= nearest@.len() <= positions.rows,
        forall|u: int| 0 <= u < nearest@.len() ==> (#[trigger] nearest@[u]).0 < positions.rows,
        current@.len() == positions.cols,
        bounded_seq(current@),
        0 < f <= SCALE,
    ensures
        p@.len() == current@.len(),
        bounded_seq(p@),
        forall|j: int|
            0 <= j < p@.len() ==> #[trigger] p@[j] == blend_entry(
                current@[j] as int,
                avg_entry(*positions, nearest@.map_values(|pr: (usize, i64)| pr.0 as int), j),
                f as int,
            ),
{
    let k = nearest.len();
    let ghost sel: Seq<int> = nearest@.map_values(|pr: (usize, i64)| pr.0 as int);
    let cols = positions.n_cols();
    let mut p: Vec<i64> = Vec::new();
    for j in 0..cols
        invariant
            cols == positions.cols,
            p@.len() == j,
            forall|u: int|
                0 <= u < j ==> #[trigger] p@[u] == blend_entry(
                    current@[u] as int,
                    avg_entry(*positions, sel, u),
                    f as int,
                ),
            forall|u: int| 0 <= u < j ==> -COORD_MAX <= #[trigger] p@[u] <= COORD_MAX,
    {
        let mut s: i64 = 0;
        for u in 0..k
            invariant
                j < cols,
                s == sum_sel(*positions, sel, j as int, u as int),
                -((u as int) * COORD_MAX) <= s <= (u as int) * COORD_MAX,
        {
            let e = positions.at(nearest[u].0, j);
            proof {
                assert(sel[u as int] == nearest@[u as int].0 as int);
                assert((u as int) * COORD_MAX + COORD_MAX == (u as int + 1) * COORD_MAX)
                    by (nonlinear_arith);
                assert((u as int + 1) * COORD_MAX <= 1_048_576 * 1_048_576int)
                    by (nonlinear_arith)
                    requires
                        0 <= u as int + 1 <= 1_048_576,
                        COORD_MAX == 1_048_576,
                ;
            }
            s = s + e;
        }
        proof {
            assert((k as int) * COORD_MAX <= 1_048_576 * 1_048_576int) by (nonlinear_arith)
                requires
                    0 <= k as int <= 1_048_576,
                    COORD_MAX == 1_048_576,
            ;
            lemma_div_trunc_bound(s as int, k as int, COORD_MAX as int);
        }
        let c = div_trunc_i64(s, k as i64);
        proof {
            assert(c == avg_entry(*positions, sel, j as int));
        }
        let cj = current[j];
        proof {
            let a = (cj as int) * (SCALE - f) + (c as int) * (f as int);
            assert(-(1_048_576_000_000int) <= (cj as int) * (SCALE - f) <= 1_048_576_000_000int
                && -(1_048_576_000_000int) <= (c as int) * (f as int) <= 1_048_576_000_000int)
                by (nonlinear_arith)
                requires
                    -COORD_MAX <= cj <= COORD_MAX,
                    -COORD_MAX <= c <= COORD_MAX,
                    0 <= f <= SCALE,
                    COORD_MAX == 1_048_576,
                    SCALE == 1_000_000,
            ;
            assert(-((SCALE as int) * (COORD_MAX as int)) <= a <= (SCALE as int) * (
            COORD_MAX as int)) by (nonlinear_arith)
                requires
                    a == (cj as int) * (SCALE - f) + (c as int) * (f as int),
                    -COORD_MAX <= cj <= COORD_MAX,
                    -COORD_MAX <= c <= COORD_MAX,
                    0 <= f <= SCALE,
                    0 < SCALE,
                    0 < COORD_MAX,
            ;
            assert((SCALE as int) * (COORD_MAX as int) == 1_048_576_000_000int)
                by (nonlinear_arith)
                requires
                    SCALE == 1_000_000,
                    COORD_MAX == 1_048_576,
            ;
            lemma_div_trunc_bound(a, SCALE as int, COORD_MAX as int);
        }
        let b = div_trunc_i64(cj * (SCALE - f) + c * f, SCALE);
        p.push(b);
    }
    p
}

/// `x` occurs among the first `t` entries of `s`.
pub open spec fn idx_in_prefix(s: Seq<usize>, t: int, x: usize) -> bool {
    exists|w: int| 0 <= w < t && s[w] == x
}

/// `x` is the point index of one of the selected pairs.
pub open spec fn has_pair(ns: Seq<(usize, i64)>, x: usize) -> bool {
    exists|u: int| 0 <= u < ns.len() && ns[u].0 == x
}

/// Occurring in a prefix, `x` occurs in any longer prefix.
proof fn lemma_prefix_widen(s: Seq<usize>, t: int, x: usize)
    requires
        idx_in_prefix(s, t, x),
        t >= 0,
    ensures
        idx_in_prefix(s, t + 1, x),
{
    let w = choose|w: int| 0 <= w < t && s[w] == x;
    assert(0 <= w < t + 1 && s[w] == x);
}

/// Keeps the `smoothing` nearest sampled points at nonzero distance from
/// `current`, sorted by distance: an insertion pass over the sample that
/// evicts the farthest kept pair once the list is full.
#[verifier::loop_isolation(false)]
#[verifier::rlimit(60)]
fn select_nearest(
    positions: &Matrix,
    dist: Distance,
    current: &Vec<i64>,
    sample: &Vec<usize>,
    smoothing: usize,
    id: usize,
) -> (nearest: Vec<(usize, i64)>)
    requires
        positions.wf(),
        1 <= smoothing,
        current@.len() == positions.cols,
        bounded_seq(current@),
        forall|w: int|
            0 <= w < sample@.len() ==> #[trigger] sample@[w] < positions.rows && sample@[w]
                != id,
        forall|w1: int, w2: int| 0 <= w1 < w2 < sample@.len() ==> sample@[w1] != sample@[w2],
    ensures
        nearest@.len() <= smoothing,
        nearest@.len() <= sample@.len(),
        forall|u: int|
            0 <= u < nearest@.len() ==> (#[trigger] nearest@[u]).0 < positions.rows
                && nearest@[u].0 != id && nearest@[u].1 == spec_measure(
                dist,
                current@,
                positions.row_seq(nearest@[u].0 as int),
            ) && 0 < nearest@[u].1 <= DIST_MAX,
        forall|u1: int, u2: int|
            0 <= u1 < u2 < nearest@.len() ==> nearest@[u1].1 <= nearest@[u2].1,
        forall|u1: int, u2: int|
            0 <= u1 < u2 < nearest@.len() ==> nearest@[u1].0 != nearest@[u2].0,
        forall|u: int|
            0 <= u < nearest@.len() ==> idx_in_prefix(
                sample@,
                sample@.len() as int,
                (#[trigger] nearest@[u]).0,
            ),
        nearest@.len() == (if valid_count(
            *positions,
            dist,
            current@,
            sample@.map_values(|v: usize| v as int),
            sample@.len() as int,
        ) < smoothing {
            valid_count(
                *positions,
                dist,
                current@,
                sample@.map_values(|v: usize| v as int),
                sample@.len() as int,
            )
        } else {
            smoothing as int
        }),
        forall|w: int|
            0 <= w < sample@.len() && spec_measure(
                dist,
                current@,
                positions.row_seq(sample@[w] as int),
            ) > 0 && !has_pair(nearest@, #[trigger] sample@[w]) ==> nearest@.len()
                == smoothing && spec_measure(
                dist,
                current@,
                positions.row_seq(sample@[w] as int),
            ) >= nearest@[nearest@.len() - 1].1,
{
    let ghost draw: Seq<int> = sample@.map_values(|v: usize| v as int);
    let mut nearest: Vec<(usize, i64)> = Vec::new();
    let ns = sample.len();
    for t in 0..ns
        invariant
            ns == sample@.len(),
            draw == sample@.map_values(|v: usize| v as int),
            nearest@.len() <= smoothing,
            nearest@.len() <= t,
            forall|u: int|
                0 <= u < nearest@.len() ==> (#[trigger] nearest@[u]).0 < positions.rows
                    && nearest@[u].0 != id && nearest@[u].1 == spec_measure(
                    dist,
                    current@,
                    positions.row_seq(nearest@[u].0 as int),
                ) && 0 < nearest@[u].1 <= DIST_MAX,
            forall|u1: int, u2: int|
                0 <= u1 < u2 < nearest@.len() ==> nearest@[u1].1 <= nearest@[u2].1,
            forall|u1: int, u2: int|
                0 <= u1 < u2 < nearest@.len() ==> nearest@[u1].0 != nearest@[u2].0,
            forall|u: int|
                0 <= u < nearest@.len() ==> idx_in_prefix(
                    sample@,
                    t as int,
                    (#[trigger] nearest@[u]).0,
                ),
            nearest@.len() == (if valid_count(*positions, dist, current@, draw, t as int)
                < smoothing {
                valid_count(*positions, dist, current@, draw, t as int)
            } else {
                smoothing as int
            }),
            forall|w: int|
                0 <= w < t && spec_measure(dist, current@, positions.row_seq(draw[w])) > 0
                    && !has_pair(nearest@, #[trigger] sample@[w]) ==> nearest@.len()
                    == smoothing && spec_measure(dist, current@, positions.row_seq(draw[w]))
                    >= nearest@[nearest@.len() - 1].1,
    {
        let idx = sample[t];
        let row = positions.row(idx);
        proof {
            positions.lemma_rows_pair(idx as int, idx as int);
        }
        let d = dist.measure(current, &row);
        let ghost old_n = nearest@;
        proof {
            assert(draw[t as int] == idx as int);
            assert(valid_count(*positions, dist, current@, draw, t as int + 1) == valid_count(
                *positions,
                dist,
                current@,
                draw,
                t as int,
            ) + (if spec_measure(dist, current@, positions.row_seq(idx as int)) > 0 {
                1int
            } else {
                0int
            }));
            // the new index is not among the selected pairs yet
            assert forall|u: int| 0 <= u < nearest@.len() implies (#[trigger] nearest@[u]).0
                != idx by {
                let w = choose|w: int| 0 <= w < t && sample@[w] == nearest@[u].0;
                assert(sample@[w] != sample@[t as int]);
            }
        }
        if d > 0 {
            let mut pos: usize = 0;
            let nl = nearest.len();
            while pos < nl && nearest[pos].1 <= d
                invariant
                    nl == nearest@.len(),
                    pos <= nl,
                    forall|u: int| 0 <= u < pos ==> nearest@[u].1 <= d,
                decreases nl - pos,
            {
                pos = pos + 1;
            }
            if pos < smoothing {
                nearest.insert(pos, (idx, d));
                if nearest.len() > smoothing {
                    nearest.truncate(smoothing);
                }
                proof {
                    let ins = old_n.insert(pos as int, (idx, d));
                    if old_n.len() < smoothing {
                        assert(nearest@ == ins);
                    } else {
                        assert(nearest@ =~= ins.subrange(0, smoothing as int));
                    }
                    assert forall|u: int|
                        0 <= u < nearest@.len() implies idx_in_prefix(
                        sample@,
                        t as int + 1,
                        (#[trigger] nearest@[u]).0,
                    ) by {
                        if u == pos as int {
                            assert(nearest@[u] == (idx, d));
                            assert(sample@[t as int] == idx);
                        } else {
                            let v: int = if u < pos {
                                u
                            } else {
                                u - 1
                            };
                            assert(nearest@[u] == old_n[v]);
                            lemma_prefix_widen(sample@, t as int, old_n[v].0);
                        }
                    }
                    assert forall|w: int|
                        0 <= w < t + 1 && spec_measure(
                            dist,
                            current@,
                            positions.row_seq(draw[w]),
                        ) > 0 && !has_pair(nearest@, #[trigger] sample@[w]) implies nearest@.len()
                        == smoothing && spec_measure(
                        dist,
                        current@,
                        positions.row_seq(draw[w]),
                    ) >= nearest@[nearest@.len() - 1].1 by {
                        if w == t as int {
                            assert(nearest@[pos as int].0 == idx);
                            assert(has_pair(nearest@, sample@[w]));
                        } else {
                            if has_pair(old_n, sample@[w]) {
                                let u = choose|u: int|
                                    0 <= u < old_n.len() && old_n[u].0 == sample@[w];
                                if old_n.len() == smoothing && u == old_n.len() - 1 {
                                    // the farthest pair was evicted
                                    assert(old_n[u] == ins[old_n.len() as int]);
                                    assert(spec_measure(
                                        dist,
                                        current@,
                                        positions.row_seq(draw[w]),
                                    ) == old_n[u].1);
                                } else {
                                    let v: int = if u < pos {
                                        u
                                    } else {
                                        u + 1
                                    };
                                    assert(ins[v] == old_n[u]);
                                    if v < nearest@.len() {
                                        assert(nearest@[v].0 == sample@[w]);
                                        assert(has_pair(nearest@, sample@[w]));
                                    }
                                }
                            }
                        }
                    }
                }
            } else {
                proof {
                    assert(pos == nearest@.len());
                    assert(nearest@.len() == smoothing);
                }
            }
        }
    }
    nearest
}

pub struct Pathfinder {
    /// The row this solver walks.
    pub id: usize,
    /// How many points the dataset has.
    pub samples: usize,
    /// How many coordinates each point has.
    pub features: usize,
    /// How many other points each step samples.
    pub subsample: usize,
    /// How many nearest sampled points are averaged per step.
    pub smoothing: usize,
    /// Fraction of `SCALE` moved toward the candidate each step.
    pub scaling_factor: i64,
    /// Convergence ratio, scaled by `SCALE`.
    pub convergence_factor: i64,
    /// The dissimilarity measure.
    pub distance: Distance,
    /// Step budget of one descent.
    pub step_limit: usize,
    /// The last positions remembered, oldest first, newest last.
    pub previous_steps: Vec<Vec<i64>>,
    /// Whether the current descent has stabilised.
    pub converged: bool,
    /// This solver's own random stream.
    pub rng: StdRng,
}

/// The tunables and identity of two solver states agree.
pub open spec fn same_cfg(a: Pathfinder, b: Pathfinder) -> bool {
    &&& a.id == b.id
    &&& a.samples == b.samples
    &&& a.features == b.features
    &&& a.subsample == b.subsample
    &&& a.smoothing == b.smoothing
    &&& a.scaling_factor == b.scaling_factor
    &&& a.convergence_factor == b.convergence_factor
    &&& a.distance == b.distance
    &&& a.step_limit == b.step_limit
}

impl Pathfinder {
    /// The history holds bounded positions of the right width, at most
    /// `HISTORY_CAP` of them.
    pub open spec fn history_wf(&self) -> bool {
        &&& self.previous_steps@.len() <= HISTORY_CAP
        &&& forall|t: int|
            0 <= t < self.previous_steps@.len() ==> (#[trigger] self.previous_steps@[t])@.len()
                == self.features && bounded_seq(self.previous_steps@[t]@)
    }

    /// Identity, tunables and history are all in range.
    pub open spec fn wf(&self) -> bool {
        &&& self.id < self.samples
        &&& self.samples <= ROWS_MAX
        &&& self.features <= DIM_MAX
        &&& self.subsample <= self.samples - 1
        &&& 1 <= self.smoothing
        &&& 0 < self.scaling_factor <= SCALE
        &&& 0 < self.convergence_factor <= 1_000_000_000
        &&& 1 <= self.step_limit <= 1_000_000_000
        &&& self.history_wf()
    }

    /// A matrix this solver can walk over.
    pub open spec fn fits(&self, positions: Matrix) -> bool {
        &&& positions.wf()
        &&& positions.rows == self.samples
        &&& positions.cols == self.features
    }

    /// Builds the solver of point `id`, with a random stream derived from
    /// the configured seed and the point's own index.
    pub fn init(id: usize, samples: usize, features: usize, parameters: &Parameters) -> (r:
        Pathfinder)
        requires
            id < samples,
            samples <= ROWS_MAX,
            features <= DIM_MAX,
            params_valid(*parameters),
        ensures
            r.wf(),
            r.id == id,
            r.samples == samples,
            r.features == features,
            r.subsample == spec_effective_subsample(parameters.sample_subsample, samples as int),
            r.smoothing == parameters.smoothing,
            r.scaling_factor == parameters.scaling_factor,
            r.convergence_factor == parameters.convergence_factor,
            r.distance == parameters.distance,
            r.step_limit == parameters.step_limit,
            r.previous_steps@.len() == 0,
            !r.converged,
    {
        let subsample = match parameters.sample_subsample {
            Some(s) => if s > samples - 1 {
                samples - 1
            } else {
                s
            },
            None => default_subsample(samples),
        };
        Pathfinder {
            id,
            samples,
            features,
            subsample,
            smoothing: parameters.smoothing,
            scaling_factor: parameters.scaling_factor,
            convergence_factor: parameters.convergence_factor,
            distance: parameters.distance,
            step_limit: parameters.step_limit,
            previous_steps: Vec::new(),
            converged: false,
            rng: rng_from_seed(parameters.seed.wrapping_add(id as u64)),
        }
    }

    /// Draws this step's random sample of other points: `subsample`
    /// distinct indices, none of them the point's own.
    fn sample_others(&mut self) -> (r: Vec<usize>)
        requires
            old(self).wf(),
        ensures
            same_cfg(*old(self), *final(self)),
            final(self).previous_steps == old(self).previous_steps,
            final(self).converged == old(self).converged,
            r@.len() == old(self).subsample,
            forall|t: int|
                0 <= t < r@.len() ==> #[trigger] r@[t] < old(self).samples && r@[t] != old(
                    self,
                ).id,
            forall|t1: int, t2: int| 0 <= t1 < t2 < r@.len() ==> r@[t1] != r@[t2],
    {
        let id = self.id;
        let drawn = sample_indices(&mut self.rng, self.samples - 1, self.subsample);
        let mut out: Vec<usize> = Vec::new();
        let n = drawn.len();
        for t in 0..n
            invariant
                n == drawn@.len(),
                out@.len() == t,
                forall|u: int| 0 <= u < drawn@.len() ==> #[trigger] drawn@[u] < self.samples - 1,
                forall|u1: int, u2: int| 0 <= u1 < u2 < drawn@.len() ==> drawn@[u1] != drawn@[u2],
                forall|u: int|
                    0 <= u < t ==> #[trigger] out@[u] < self.samples && out@[u] != id,
                forall|u: int|
                    0 <= u < t ==> (#[trigger] out@[u]) as int == (if drawn@[u] >= id {
                        drawn@[u] + 1
                    } else {
                        drawn@[u] as int
                    }),
                forall|u1: int, u2: int| 0 <= u1 < u2 < t ==> out@[u1] != out@[u2],
        {
            let v = drawn[t];
            if v >= id {
                out.push(v + 1);
            } else {
                out.push(v);
            }
        }
        out
    }

    /// One solver step from the position `current`.
    ///
    /// Draws a random sample of other points, keeps the `smoothing`
    /// nearest of those at nonzero distance, averages them and blends the
    /// average with `current` under the damping fraction.  Returns the
    /// blended position and its distance from `current`.  `None` reports
    /// that no movement happened — the point is already converged, the
    /// sample held no valid neighbour, or the blend landed exactly on
    /// `current` — and is taken as a convergence signal by the descent.
    #[verifier::loop_isolation(false)]
    pub fn step_from(&mut self, current: &Vec<i64>, positions: &Matrix) -> (r: Option<
        (Vec<i64>, i64),
    >)
        requires
            old(self).wf(),
            old(self).fits(*positions),
            current@.len() == old(self).features,
            bounded_seq(current@),
        ensures
            same_cfg(*old(self), *final(self)),
            final(self).previous_steps == old(self).previous_steps,
            final(self).converged == old(self).converged,
            final(self).wf(),
            old(self).converged ==> r is None,
            old(self).subsample == 0 ==> r is None,
            r is None ==> old(self).converged || old(self).subsample == 0 || (exists|
                sel: Seq<int>,
            |
                #[trigger] from_nearest_draw(
                    *positions,
                    old(self).subsample as int,
                    old(self).smoothing as int,
                    old(self).id as int,
                    old(self).distance,
                    current@,
                    sel,
                ) && sel.len() == 0) || (exists|sel: Seq<int>, p: Seq<i64>|
                #[trigger] is_step_candidate(
                    *positions,
                    old(self).id as int,
                    old(self).smoothing as int,
                    old(self).distance,
                    old(self).scaling_factor as int,
                    current@,
                    sel,
                    p,
                ) && from_nearest_draw(
                    *positions,
                    old(self).subsample as int,
                    old(self).smoothing as int,
                    old(self).id as int,
                    old(self).distance,
                    current@,
                    sel,
                ) && spec_measure(old(self).distance, p, current@) == 0),
            match r {
                Some(pd) => step_sound(*old(self), *positions, current@, pd.0@, pd.1),
                None => true,
            },
    {
        if self.converged {
            return None;
        }
        if self.subsample == 0 {
            return None;
        }
        let sample = self.sample_others();
        let ghost draw: Seq<int> = sample@.map_values(|v: usize| v as int);
        let nearest = select_nearest(
            positions,
            self.distance,
            current,
            &sample,
            self.smoothing,
            self.id,
        );
        let ghost sel: Seq<int> = nearest@.map_values(|pr: (usize, i64)| pr.0 as int);
        if nearest.len() == 0 {
            proof {
                assert(sel.len() == 0);
                assert(is_nearest_draw(
                    *positions,
                    old(self).subsample as int,
                    old(self).smoothing as int,
                    old(self).id as int,
                    old(self).distance,
                    current@,
                    draw,
                    sel,
                )) by {
                    reveal(is_nearest_draw);
                }
                assert(from_nearest_draw(
                    *positions,
                    old(self).subsample as int,
                    old(self).smoothing as int,
                    old(self).id as int,
                    old(self).distance,
                    current@,
                    sel,
                ));
            }
            return None;
        }
        proof {
            assert(nearest@.len() <= self.samples);
        }
        let p = build_candidate(positions, &nearest, current, self.scaling_factor);
        let d = self.distance.measure(&p, current);
        proof {
            assert(is_step_candidate(
                *positions,
                old(self).id as int,
                old(self).smoothing as int,
                old(self).distance,
                old(self).scaling_factor as int,
                current@,
                sel,
                p@,
            )) by {
                reveal(is_step_candidate);
            }
            assert(is_nearest_draw(
                *positions,
                old(self).subsample as int,
                old(self).smoothing as int,
                old(self).id as int,
                old(self).distance,
                current@,
                draw,
                sel,
            )) by {
                reveal(is_nearest_draw);
                assert forall|t: int| 0 <= t < sel.len() implies sel_has(
                    draw,
                    #[trigger] sel[t],
                ) by {
                    let w = choose|w: int|
                        0 <= w < sample@.len() && sample@[w] == nearest@[t].0;
                    assert(draw[w] == sel[t]);
                }
                assert forall|w: int, t: int|
                    #![trigger draw[w], sel[t]]
                    0 <= w < draw.len() && 0 <= t < sel.len() && spec_measure(
                        old(self).distance,
                        current@,
                        positions.row_seq(draw[w]),
                    ) > 0 && !sel_has(sel, draw[w]) implies spec_measure(
                    old(self).distance,
                    current@,
                    positions.row_seq(sel[t]),
                ) <= spec_measure(old(self).distance, current@, positions.row_seq(draw[w])) by {
                    assert(!has_pair(nearest@, sample@[w])) by {
                        if has_pair(nearest@, sample@[w]) {
                            let u = choose|u: int|
                                0 <= u < nearest@.len() && nearest@[u].0 == sample@[w];
                            assert(sel[u] == draw[w]);
                        }
                    }
                    assert(nearest@[t].1 <= nearest@[nearest@.len() - 1].1);
                    assert(spec_measure(
                        old(self).distance,
                        current@,
                        positions.row_seq(sel[t]),
                    ) == nearest@[t].1);
                }
            }
            assert(from_nearest_draw(
                *positions,
                old(self).subsample as int,
                old(self).smoothing as int,
                old(self).id as int,
                old(self).distance,
                current@,
                sel,
            ));
        }
        if d == 0 {
            return None;
        }
        proof {
            assert(step_sound(*old(self), *positions, current@, p@, d));
        }
        Some((p, d))
    }

    /// One solver step taken from the point's own row of `positions`.
    pub fn step(&mut self, positions: &Matrix) -> (r: Option<(Vec<i64>, i64)>)
        requires
            old(self).wf(),
            old(self).fits(*positions),
        ensures
            same_cfg(*old(self), *final(self)),
            final(self).previous_steps == old(self).previous_steps,
            final(self).converged == old(self).converged,
            final(self).wf(),
            old(self).converged ==> r is None,
            match r {
                Some(pd) => step_sound(
                    *old(self),
                    *positions,
                    positions.row_seq(old(self).id as int),
                    pd.0@,
                    pd.1,
                ),
                None => true,
            },
    {
        proof {
            positions.lemma_row_valid(self.id as int);
        }
        let current = positions.row(self.id);
        self.step_from(&current, positions)
    }

    /// Remembers a new position, evicting the oldest one once the window
    /// is full.  A converged solver remembers nothing further.
    pub fn memorize_step(&mut self, point: Vec<i64>)
        requires
            old(self).wf(),
            point@.len() == old(self).features,
            bounded_seq(point@),
        ensures
            same_cfg(*old(self), *final(self)),
            final(self).converged == old(self).converged,
            final(self).wf(),
            old(self).converged ==> final(self).previous_steps == old(self).previous_steps,
            !old(self).converged ==> final(self).previous_steps@ == (if old(
                self,
            ).previous_steps@.len() == HISTORY_CAP {
                old(self).previous_steps@.subrange(
                    1,
                    old(self).previous_steps@.len() as int,
                ).push(point)
            } else {
                old(self).previous_steps@.push(point)
            }),
    {
        if self.converged {
            return ;
        }
        if self.previous_steps.len() == HISTORY_CAP {
            self.previous_steps.remove(0);
        }
        self.previous_steps.push(point);
        proof {
            if old(self).previous_steps@.len() == HISTORY_CAP {
                assert(self.previous_steps@ =~= old(self).previous_steps@.subrange(
                    1,
                    old(self).previous_steps@.len() as int,
                ).push(point));
            }
        }
    }

    /// Evaluates the convergence test against the position `current` and
    /// remembers its verdict.
    ///
    /// Only a full memory window is judged: with *short* the distance from
    /// the newest remembered position to `current` and *long* the distance
    /// from the oldest, the trajectory has stabilised when
    /// `long * SCALE < short * convergence_factor` — its long-window
    /// displacement makes no more net progress than its short-window one.
    pub fn converged(&mut self, current: &Vec<i64>) -> (r: bool)
        requires
            old(self).wf(),
            current@.len() == old(self).features,
            bounded_seq(current@),
        ensures
            same_cfg(*old(self), *final(self)),
            final(self).previous_steps == old(self).previous_steps,
            final(self).wf(),
            r == final(self).converged,
            final(self).converged == (old(self).converged || (old(self).previous_steps@.len()
                == HISTORY_CAP && spec_measure(
                old(self).distance,
                old(self).previous_steps@[0]@,
                current@,
            ) * SCALE < spec_measure(
                old(self).distance,
                old(self).previous_steps@[old(self).previous_steps@.len() - 1]@,
                current@,
            ) * old(self).convergence_factor)),
    {
        if self.converged {
            return true;
        }
        if self.previous_steps.len() < HISTORY_CAP {
            return false;
        }
        let newest = self.previous_steps.len() - 1;
        let short_displacement = self.distance.measure(&self.previous_steps[newest], current);
        let long_displacement = self.distance.measure(&self.previous_steps[0], current);
        proof {
            assert(long_displacement * SCALE <= 2_147_483_648_000_000int) by (nonlinear_arith)
                requires
                    0 <= long_displacement <= DIST_MAX,
                    DIST_MAX == 2_147_483_648,
                    SCALE == 1_000_000,
            ;
            assert(short_displacement * self.convergence_factor
                <= 2_147_483_648_000_000_000int) by (nonlinear_arith)
                requires
                    0 <= short_displacement <= DIST_MAX,
                    0 < self.convergence_factor <= 1_000_000_000,
                    DIST_MAX == 2_147_483_648,
            ;
            assert(0 <= short_displacement * self.convergence_factor) by (nonlinear_arith)
                requires
                    0 <= short_displacement,
                    0 < self.convergence_factor,
            ;
        }
        if long_displacement * SCALE < short_displacement * self.convergence_factor {
            self.converged = true;
            return true;
        }
        false
    }

    /// The distance between the oldest and the newest remembered
    /// positions: how much net ground the memory window covers.
    pub fn fuzz(&self) -> (r: i64)
        requires
            self.wf(),
            self.previous_steps@.len() > 0,
        ensures
            r == spec_measure(
                self.distance,
                self.previous_steps@[0]@,
                self.previous_steps@[self.previous_steps@.len() - 1]@,
            ),
            0 <= r <= DIST_MAX,
    {
        let newest = self.previous_steps.len() - 1;
        self.distance.measure(&self.previous_steps[0], &self.previous_steps[newest])
    }

    /// Clears the position memory and rearms the solver for a fresh
    /// descent.
    pub fn reset(&mut self)
        ensures
            same_cfg(*old(self), *final(self)),
            final(self).previous_steps@.len() == 0,
            !final(self).converged,
            old(self).wf() ==> final(self).wf(),
    {
        self.previous_steps = Vec::new();
        self.converged = false;
    }

    /// One full descent from the point's own row: steps, remembers and
    /// tests convergence until a step reports no movement or the test
    /// passes, then resets the solver and returns the final position.
    ///
    /// A descent that exhausts its step budget aborts with
    /// `NonConvergent`, naming the point.
    #[verifier::loop_isolation(false)]
    pub fn single_descend(&mut self, positions: &Matrix) -> (r: Result<Vec<i64>, GravityError>)
        requires
            old(self).wf(),
            old(self).fits(*positions),
        ensures
            same_cfg(*old(self), *final(self)),
            final(self).wf(),
            final(self).previous_steps@.len() == 0,
            !final(self).converged,
            match r {
                Ok(p) => p@.len() == old(self).features && bounded_seq(p@) && descent_end(
                    *positions,
                    old(self).id as int,
                    old(self).smoothing as int,
                    old(self).distance,
                    old(self).scaling_factor as int,
                    p@,
                ),
                Err(e) => e == (GravityError::NonConvergent { point: old(self).id }),
            },
    {
        proof {
            positions.lemma_row_valid(self.id as int);
        }
        let mut point = positions.row(self.id);
        let mut steps: usize = 0;
        let ghost mut chain: nat = 0;
        loop
            invariant
                same_cfg(*old(self), *self),
                self.wf(),
                self.fits(*positions),
                point@.len() == self.features,
                bounded_seq(point@),
                steps < self.step_limit,
                descends_to(
                    *positions,
                    old(self).id as int,
                    old(self).smoothing as int,
                    old(self).distance,
                    old(self).scaling_factor as int,
                    positions.row_seq(old(self).id as int),
                    point@,
                    chain,
                ),
            decreases self.step_limit - steps,
        {
            let ghost previous = point@;
            let stepped = self.step_from(&point, positions);
            match stepped {
                None => {
                    break ;
                },
                Some((p, _d)) => {
                    point = p;
                    proof {
                        let sel = choose|sel: Seq<int>|
                            #[trigger] is_step_candidate(
                                *positions,
                                old(self).id as int,
                                old(self).smoothing as int,
                                old(self).distance,
                                old(self).scaling_factor as int,
                                previous,
                                sel,
                                point@,
                            );
                        lemma_descends_append(
                            *positions,
                            old(self).id as int,
                            old(self).smoothing as int,
                            old(self).distance,
                            old(self).scaling_factor as int,
                            positions.row_seq(old(self).id as int),
                            previous,
                            point@,
                            sel,
                            chain,
                        );
                        chain = chain + 1;
                    }
                    let _settled = self.converged(&point);
                    self.memorize_step(copy_vec(&point));
                    steps = steps + 1;
                    if steps >= self.step_limit {
                        self.reset();
                        return Err(GravityError::NonConvergent { point: self.id });
                    }
                },
            }
        }
        self.reset();
        proof {
            assert(descent_end(
                *positions,
                old(self).id as int,
                old(self).smoothing as int,
                old(self).distance,
                old(self).scaling_factor as int,
                point@,
            ));
        }
        Ok(point)
    }

    /// Sum over `t < n` of coordinate `j` of the given trial results.
    pub open spec fn col_sum(rs: Seq<Seq<i64>>, j: int, n: int) -> int
        decreases n,
    {
        if n <= 0 {
            0
        } else {
            Self::col_sum(rs, j, n - 1) + rs[n - 1][j]
        }
    }

    /// An ensemble of `fuzz` independent descents of this point.
    ///
    /// Returns the coordinate-wise average of the trial end positions,
    /// the *deviation* — the mean distance from each trial's end to that
    /// average, the point's uncertainty score — and the *displacement*,
    /// the distance from the point's original row to the average.  One
    /// single trial cannot disagree with itself, so `fuzz == 1` forces a
    /// deviation of exactly zero.
    #[verifier::loop_isolation(false)]
    pub fn fuzzy_descend(&mut self, fuzz: usize, positions: &Matrix) -> (r: Result<
        (Vec<i64>, i64, i64),
        GravityError,
    >)
        requires
            old(self).wf(),
            old(self).fits(*positions),
            1 <= fuzz <= 1000,
        ensures
            same_cfg(*old(self), *final(self)),
            final(self).wf(),
            match r {
                Ok(out) => {
                    &&& out.0@.len() == old(self).features
                    &&& bounded_seq(out.0@)
                    &&& 0 <= out.1 <= DIST_MAX
                    &&& 0 <= out.2 <= DIST_MAX
                    &&& (fuzz == 1 ==> out.1 == 0)
                    &&& ensemble_outcome(
                        *positions,
                        old(self).id as int,
                        old(self).smoothing as int,
                        old(self).distance,
                        old(self).scaling_factor as int,
                        fuzz as int,
                        out.0@,
                        out.1,
                    )
                    &&& out.2 == spec_measure(
                        old(self).distance,
                        positions.row_seq(old(self).id as int),
                        out.0@,
                    )
                },
                Err(e) => e == (GravityError::NonConvergent { point: old(self).id }),
            },
    {
        let mut results: Vec<Vec<i64>> = Vec::new();
        for t in 0..fuzz
            invariant
                same_cfg(*old(self), *self),
                self.wf(),
                self.fits(*positions),
                results@.len() == t,
                forall|u: int|
                    0 <= u < t ==> (#[trigger] results@[u])@.len() == self.features
                        && bounded_seq(results@[u]@),
                forall|u: int|
                    0 <= u < t ==> descent_end(
                        *positions,
                        old(self).id as int,
                        old(self).smoothing as int,
                        old(self).distance,
                        old(self).scaling_factor as int,
                        (#[trigger] results@[u])@,
                    ),
        {
            match self.single_descend(positions) {
                Ok(p) => results.push(p),
                Err(e) => {
                    return Err(e);
                },
            }
        }
        let ghost rs: Seq<Seq<i64>> = results@.map_values(|v: Vec<i64>| v@);
        let mut avg: Vec<i64> = Vec::new();
        for j in 0..self.features
            invariant
                same_cfg(*old(self), *self),
                self.wf(),
                results@.len() == fuzz,
                rs == results@.map_values(|v: Vec<i64>| v@),
                forall|u: int|
                    0 <= u < fuzz ==> (#[trigger] results@[u])@.len() == self.features
                        && bounded_seq(results@[u]@),
                avg@.len() == j,
                forall|u: int|
                    0 <= u < j ==> #[trigger] avg@[u] == div_trunc(
                        Self::col_sum(rs, u, fuzz as int),
                        fuzz as int,
                    ),
                forall|u: int| 0 <= u < j ==> -COORD_MAX <= #[trigger] avg@[u] <= COORD_MAX,
        {
            let mut s: i64 = 0;
            for t in 0..fuzz
                invariant
                    results@.len() == fuzz,
                    rs == results@.map_values(|v: Vec<i64>| v@),
                    j < self.features,
                    forall|u: int|
                        0 <= u < fuzz ==> (#[trigger] results@[u])@.len() == self.features
                            && bounded_seq(results@[u]@),
                    s == Self::col_sum(rs, j as int, t as int),
                    -((t as int) * COORD_MAX) <= s <= (t as int) * COORD_MAX,
            {
                let e = results[t][j];
                proof {
                    assert((t as int) * COORD_MAX + COORD_MAX == (t as int + 1) * COORD_MAX)
                        by (nonlinear_arith);
                    assert((t as int + 1) * COORD_MAX <= 1_048_576_000_000int)
                        by (nonlinear_arith)
                        requires
                            0 <= t as int + 1 <= 1000,
                            COORD_MAX == 1_048_576,
                    ;
                }
                s = s + e;
            }
            proof {
                assert((fuzz as int) * COORD_MAX <= 1_048_576_000_000int) by (nonlinear_arith)
                    requires
                        0 <= fuzz as int <= 1000,
                        COORD_MAX == 1_048_576,
                ;
                lemma_div_trunc_bound(s as int, fuzz as int, COORD_MAX as int);
            }
            let a = div_trunc_i64(s, fuzz as i64);
            avg.push(a);
        }
        proof {
            if fuzz == 1 {
                assert forall|u: int| 0 <= u < avg@.len() implies avg@[u] == rs[0][u] by {
                    assert(Self::col_sum(rs, u, 0) == 0);
                    assert(Self::col_sum(rs, u, 1) == rs[0][u]);
                    lemma_div_trunc_one(rs[0][u] as int);
                }
                assert(avg@ =~= rs[0]);
                assert(avg@ == results@[0]@);
            }
        }
        let mut dev_sum: i64 = 0;
        for t in 0..fuzz
            invariant
                same_cfg(*old(self), *self),
                self.wf(),
                results@.len() == fuzz,
                avg@.len() == self.features,
                bounded_seq(avg@),
                rs == results@.map_values(|v: Vec<i64>| v@),
                forall|u: int|
                    0 <= u < fuzz ==> (#[trigger] results@[u])@.len() == self.features
                        && bounded_seq(results@[u]@),
                fuzz == 1 ==> avg@ == results@[0]@,
                0 <= dev_sum <= (t as int) * DIST_MAX,
                dev_sum == endpoint_dev_sum(rs, avg@, self.distance, t as int),
                fuzz == 1 ==> dev_sum == 0,
        {
            let d = self.distance.measure(&results[t], &avg);
            proof {
                assert((t as int) * DIST_MAX + DIST_MAX == (t as int + 1) * DIST_MAX)
                    by (nonlinear_arith);
                assert((t as int + 1) * DIST_MAX <= 2_147_483_648_000int) by (nonlinear_arith)
                    requires
                        0 <= t as int + 1 <= 1000,
                        DIST_MAX == 2_147_483_648,
                ;
                if fuzz == 1 {
                    lemma_measure_self_zero(self.distance, results@[0]@);
                }
            }
            dev_sum = dev_sum + d;
        }
        proof {
            assert((fuzz as int) * DIST_MAX <= 2_147_483_648_000int) by (nonlinear_arith)
                requires
                    0 <= fuzz as int <= 1000,
                    DIST_MAX == 2_147_483_648,
            ;
            lemma_div_trunc_bound(dev_sum as int, fuzz as int, DIST_MAX as int);
        }
        let deviation = div_trunc_i64(dev_sum, fuzz as i64);
        proof {
            if fuzz == 1 {
                lemma_div_trunc_one(0);
            }
            positions.lemma_row_valid(self.id as int);
        }
        let own_row = positions.row(self.id);
        let displacement = self.distance.measure(&own_row, &avg);
        proof {
            vstd::arithmetic::div_mod::lemma_div_of0(fuzz as int);
            assert(is_ensemble(
                *positions,
                old(self).id as int,
                old(self).smoothing as int,
                old(self).distance,
                old(self).scaling_factor as int,
                fuzz as int,
                rs,
                avg@,
                deviation,
            )) by {
                reveal(is_ensemble);
                assert forall|u: int|
                    0 <= u < rs.len() implies descent_end(
                    *positions,
                    old(self).id as int,
                    old(self).smoothing as int,
                    old(self).distance,
                    old(self).scaling_factor as int,
                    #[trigger] rs[u],
                ) by {
                    assert(rs[u] == results@[u]@);
                }
            }
            assert(ensemble_outcome(
                *positions,
                old(self).id as int,
                old(self).smoothing as int,
                old(self).distance,
                old(self).scaling_factor as int,
                fuzz as int,
                avg@,
                deviation,
            ));
        }
        Ok((avg, deviation, displacement))
    }
}

} // verus!
