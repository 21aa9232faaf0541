//! The orchestrator: fans the solver out over every point of the dataset,
//! collects the converged positions and the fuzz vector, and drives the
//! greedy cluster formation and the cluster merging.

use vstd::prelude::*;

verus! {

use crate::{ROWS_MAX, SCALE, DIST_MAX};
use crate::cluster::{Cluster, cluster_wf, mem_sel, spec_center};
use crate::error::GravityError;
use crate::matrix::{Matrix, all_rows_equal};
use crate::metric::{Distance, bounded_seq, spec_measure, lemma_measure_self_zero};
use crate::params::{Parameters, params_valid};
use crate::pathfinder::{Pathfinder, ensemble_outcome, lemma_ensemble_identical};

/// Every cluster satisfies its invariant and carries the id
/// `index + 1`.
pub open spec fn clusters_wf(cs: Seq<Cluster>, m: Matrix, dist: Distance) -> bool {
    forall|i: int|
        0 <= i < cs.len() ==> cluster_wf(#[trigger] cs[i], m, dist) && cs[i].id == i + 1
}

/// No point index occurs twice over all memberships.
pub open spec fn members_distinct(cs: Seq<Cluster>) -> bool {
    forall|a: int, t: int, b: int, u: int|
        #![trigger cs[a].members@[t], cs[b].members@[u]]
        0 <= a < cs.len() && 0 <= b < cs.len() && 0 <= t < cs[a].members@.len() && 0 <= u
            < cs[b].members@.len() && (a != b || t != u) ==> cs[a].members@[t]
            != cs[b].members@[u]
}

/// Point `p` belongs to one of the clusters.
pub open spec fn point_in(cs: Seq<Cluster>, p: usize) -> bool {
    exists|a: int, t: int|
        0 <= a < cs.len() && 0 <= t < cs[a].members@.len() && #[trigger] cs[a].members@[t] == p
}

/// Point `p` belongs to one of the first `k` clusters.
pub open spec fn point_in_prefix(cs: Seq<Cluster>, k: int, p: usize) -> bool {
    exists|a: int, t: int|
        0 <= a < k && a < cs.len() && 0 <= t < cs[a].members@.len() && #[trigger] cs[
            a
        ].members@[t] == p
}

/// `p` carries the least fuzz of all points, ties resolved toward the
/// lowest index.
pub open spec fn is_min_fuzz(fuzz: Seq<i64>, p: usize) -> bool {
    &&& (p as int) < fuzz.len()
    &&& forall|q: int|
        0 <= q < fuzz.len() ==> (fuzz[p as int] < #[trigger] fuzz[q] || (fuzz[p as int]
            == fuzz[q] && p <= q))
}

/// Over identical rows, a member sum is the member count times the
/// common row.
proof fn lemma_sum_sel_identical(m: Matrix, sel: Seq<int>, j: int, t: int, r0: int)
    requires
        m.wf(),
        all_rows_equal(m),
        forall|u: int| 0 <= u < sel.len() ==> 0 <= #[trigger] sel[u] < m.rows,
        0 <= t <= sel.len(),
        0 <= j < m.cols,
        0 <= r0 < m.rows,
    ensures
        crate::pathfinder::sum_sel(m, sel, j, t) == t * m.row_seq(r0)[j],
    decreases t,
{
    if t <= 0 {
        assert(0int * m.row_seq(r0)[j] == 0) by (nonlinear_arith);
    } else {
        lemma_sum_sel_identical(m, sel, j, t - 1, r0);
        assert(m.entry(sel[t - 1], j) == m.row_seq(sel[t - 1])[j]);
        assert(m.row_seq(sel[t - 1]) == m.row_seq(r0));
        let x = m.row_seq(r0)[j] as int;
        assert((t - 1) * x + x == t * x) by (nonlinear_arith);
    }
}

/// Over identical rows, every cluster centroid is the common row.
proof fn lemma_center_identical(c: Cluster, m: Matrix, dist: Distance, r0: int)
    requires
        m.wf(),
        cluster_wf(c, m, dist),
        all_rows_equal(m),
        0 <= r0 < m.rows,
    ensures
        spec_center(c, m.cols as int) == m.row_seq(r0),
{
    m.lemma_row_valid(r0);
    assert forall|j: int| 0 <= j < m.cols implies spec_center(c, m.cols as int)[j]
        == m.row_seq(r0)[j] by {
        lemma_sum_sel_identical(m, mem_sel(c), j, c.weight as int, r0);
        crate::metric::lemma_div_trunc_exact_multiple(
            m.row_seq(r0)[j] as int,
            c.weight as int,
        );
    }
    assert(spec_center(c, m.cols as int) =~= m.row_seq(r0));
}

/// How many of the first `n` flags are set.
pub open spec fn count_true(s: Seq<bool>, n: int) -> int
    decreases n,
{
    if n <= 0 {
        0
    } else {
        count_true(s, n - 1) + if s[n - 1] {
            1int
        } else {
            0int
        }
    }
}

proof fn lemma_count_true_le(s: Seq<bool>, n: int)
    requires
        0 <= n <= s.len(),
    ensures
        0 <= count_true(s, n) <= n,
    decreases n,
{
    if n > 0 {
        lemma_count_true_le(s, n - 1);
    }
}

proof fn lemma_count_full(s: Seq<bool>, n: int)
    requires
        0 <= n <= s.len(),
        count_true(s, n) == n,
    ensures
        forall|i: int| 0 <= i < n ==> s[i],
    decreases n,
{
    if n > 0 {
        lemma_count_true_le(s, n - 1);
        lemma_count_full(s, n - 1);
    }
}

proof fn lemma_count_update(s: Seq<bool>, i: int, n: int)
    requires
        0 <= i < s.len(),
        0 <= n <= s.len(),
        !s[i],
    ensures
        count_true(s.update(i, true), n) == count_true(s, n) + if i < n {
            1int
        } else {
            0int
        },
    decreases n,
{
    if n > 0 {
        lemma_count_update(s, i, n - 1);
        if i == n - 1 {
            assert(s.update(i, true)[n - 1] == true);
        } else {
            assert(s.update(i, true)[n - 1] == s[n - 1]);
        }
    }
}

/// An exact copy of a cluster.
fn clone_cluster(c: &Cluster) -> (r: Cluster)
    ensures
        r.id == c.id,
        r.weight == c.weight,
        r.sum@ == c.sum@,
        r.members@ == c.members@,
        r.radius == c.radius,
{
    let mut sum: Vec<i64> = Vec::new();
    let ns = c.sum.len();
    for j in 0..ns
        invariant
            ns == c.sum@.len(),
            sum@.len() == j,
            forall|u: int| 0 <= u < j ==> sum@[u] == c.sum@[u],
    {
        sum.push(c.sum[j]);
    }
    let mut members: Vec<usize> = Vec::new();
    let nm = c.members.len();
    for t in 0..nm
        invariant
            nm == c.members@.len(),
            members@.len() == t,
            forall|u: int| 0 <= u < t ==> members@[u] == c.members@[u],
    {
        members.push(c.members[t]);
    }
    proof {
        assert(sum@ =~= c.sum@);
        assert(members@ =~= c.members@);
    }
    Cluster { id: c.id, weight: c.weight, sum, members, radius: c.radius }
}

/// The unassigned point of least fuzz, ties resolved toward the lowest
/// index; `None` exactly when every point is assigned.
#[verifier::loop_isolation(false)]
fn best_candidate(fuzz: &Vec<i64>, assigned: &Vec<bool>) -> (r: Option<usize>)
    requires
        fuzz@.len() == assigned@.len(),
    ensures
        r is None <==> (forall|i: int| 0 <= i < assigned@.len() ==> assigned@[i]),
        match r {
            Some(p) => {
                &&& p < assigned@.len()
                &&& !assigned@[p as int]
                &&& forall|q: int|
                    0 <= q < assigned@.len() && !assigned@[q] ==> (fuzz@[p as int] < fuzz@[q] || (
                    fuzz@[p as int] == fuzz@[q] && p <= q))
            },
            None => true,
        },
{
    let n = assigned.len();
    let mut best: Option<usize> = None;
    for i in 0..n
        invariant
            best is None <==> (forall|q: int| 0 <= q < i ==> assigned@[q]),
            match best {
                Some(p) => {
                    &&& p < i
                    &&& !assigned@[p as int]
                    &&& forall|q: int|
                        0 <= q < i && !assigned@[q] ==> (fuzz@[p as int] < fuzz@[q] || (fuzz@[
                            p as int
                        ] == fuzz@[q] && p <= q))
                },
                None => true,
            },
    {
        if !assigned[i] {
            match best {
                None => {
                    best = Some(i);
                },
                Some(p) => {
                    if fuzz[i] < fuzz[p] {
                        best = Some(i);
                    }
                },
            }
        }
    }
    best
}

/// The index of the nearest cluster centroid to `prow` and its distance,
/// ties resolved toward the lowest index; `None` exactly when there is no
/// cluster.
#[verifier::loop_isolation(false)]
fn nearest_cluster(clusters: &Vec<Cluster>, positions: &Matrix, dist: Distance, prow: &Vec<i64>) -> (r:
    Option<(usize, i64)>)
    requires
        positions.wf(),
        clusters_wf(clusters@, *positions, dist),
        prow@.len() == positions.cols,
        bounded_seq(prow@),
    ensures
        r is None <==> clusters@.len() == 0,
        match r {
            Some(pd) => {
                &&& pd.0 < clusters@.len()
                &&& pd.1 == spec_measure(
                    dist,
                    prow@,
                    spec_center(clusters@[pd.0 as int], positions.cols as int),
                )
                &&& 0 <= pd.1 <= DIST_MAX
                &&& forall|c: int|
                    0 <= c < clusters@.len() ==> (pd.1 < spec_measure(
                        dist,
                        prow@,
                        spec_center(#[trigger] clusters@[c], positions.cols as int),
                    ) || (pd.1 == spec_measure(
                        dist,
                        prow@,
                        spec_center(clusters@[c], positions.cols as int),
                    ) && pd.0 <= c))
            },
            None => true,
        },
{
    let n = clusters.len();
    let mut best: Option<(usize, i64)> = None;
    for c in 0..n
        invariant
            best is None <==> c == 0,
            match best {
                Some(pd) => {
                    &&& pd.0 < c
                    &&& pd.1 == spec_measure(
                        dist,
                        prow@,
                        spec_center(clusters@[pd.0 as int], positions.cols as int),
                    )
                    &&& 0 <= pd.1 <= DIST_MAX
                    &&& forall|b: int|
                        0 <= b < c ==> (pd.1 < spec_measure(
                            dist,
                            prow@,
                            spec_center(#[trigger] clusters@[b], positions.cols as int),
                        ) || (pd.1 == spec_measure(
                            dist,
                            prow@,
                            spec_center(clusters@[b], positions.cols as int),
                        ) && pd.0 <= b))
                },
                None => true,
            },
    {
        let center = clusters[c].center(positions, dist);
        let d = dist.measure(prow, &center);
        match best {
            None => {
                best = Some((c, d));
            },
            Some(pd) => {
                if d < pd.1 {
                    best = Some((c, d));
                }
            },
        }
    }
    best
}

} // verus!

verus! {

/// After replacing cluster `ci` by one whose membership is the old one
/// plus `p`, a point belongs to the list exactly when it belonged before
/// or is `p`.
proof fn lemma_point_in_update_add(cs: Seq<Cluster>, cs2: Seq<Cluster>, ci: int, p: usize)
    requires
        0 <= ci < cs.len(),
        cs2.len() == cs.len(),
        forall|b: int| 0 <= b < cs.len() && b != ci ==> cs2[b] == cs[b],
        cs2[ci].members@ == cs[ci].members@.push(p),
    ensures
        forall|q: usize| #[trigger] point_in(cs2, q) <==> (point_in(cs, q) || q == p),
{
    assert forall|q: usize| #[trigger] point_in(cs2, q) implies (point_in(cs, q) || q == p) by {
        let (a, t) = choose|a: int, t: int|
            0 <= a < cs2.len() && 0 <= t < cs2[a].members@.len() && #[trigger] cs2[
                a
            ].members@[t] == q;
        if a == ci {
            if t < cs[ci].members@.len() {
                assert(cs[a].members@[t] == q);
            }
        } else {
            assert(cs[a].members@[t] == q);
        }
    }
    assert forall|q: usize| (point_in(cs, q) || q == p) implies #[trigger] point_in(cs2, q) by {
        if q == p {
            let t = cs[ci].members@.len() as int;
            assert(cs2[ci].members@[t] == p);
        } else {
            let (a, t) = choose|a: int, t: int|
                0 <= a < cs.len() && 0 <= t < cs[a].members@.len() && #[trigger] cs[
                    a
                ].members@[t] == q;
            if a == ci {
                assert(cs2[ci].members@[t] == q);
            } else {
                assert(cs2[a].members@[t] == q);
            }
        }
    }
}

/// Adding an unclustered point to one cluster's membership keeps all
/// memberships distinct.
proof fn lemma_distinct_update_add(cs: Seq<Cluster>, cs2: Seq<Cluster>, ci: int, p: usize)
    requires
        members_distinct(cs),
        !point_in(cs, p),
        0 <= ci < cs.len(),
        cs2.len() == cs.len(),
        forall|b: int| 0 <= b < cs.len() && b != ci ==> cs2[b] == cs[b],
        cs2[ci].members@ == cs[ci].members@.push(p),
    ensures
        members_distinct(cs2),
{
    let last = cs[ci].members@.len() as int;
    assert forall|a: int, t: int, b: int, u: int|
        #![trigger cs2[a].members@[t], cs2[b].members@[u]]
        0 <= a < cs2.len() && 0 <= b < cs2.len() && 0 <= t < cs2[a].members@.len() && 0 <= u
            < cs2[b].members@.len() && (a != b || t != u) implies cs2[a].members@[t] != cs2[
        b
    ].members@[u] by {
        if a == ci && t == last {
            assert(cs2[a].members@[t] == p);
            if !(b == ci && u == last) {
                if b == ci {
                    assert(cs2[b].members@[u] == cs[b].members@[u]);
                }
                if cs2[b].members@[u] == p {
                    assert(cs[b].members@[u] == p);
                    assert(point_in(cs, p));
                }
            }
        } else if b == ci && u == last {
            assert(cs2[b].members@[u] == p);
            if a == ci {
                assert(cs2[a].members@[t] == cs[a].members@[t]);
            }
            if cs2[a].members@[t] == p {
                assert(cs[a].members@[t] == p);
                assert(point_in(cs, p));
            }
        } else {
            if a == ci {
                assert(cs2[a].members@[t] == cs[a].members@[t]);
            }
            if b == ci {
                assert(cs2[b].members@[u] == cs[b].members@[u]);
            }
        }
    }
}

/// After appending a singleton cluster of `p`, a point belongs to the
/// list exactly when it belonged before or is `p`; distinctness is kept
/// when `p` was unclustered.
proof fn lemma_push_singleton(cs: Seq<Cluster>, cs2: Seq<Cluster>, p: usize)
    requires
        members_distinct(cs),
        !point_in(cs, p),
        cs2 == cs.push(cs2[cs.len() as int]),
        cs2[cs.len() as int].members@ == seq![p],
    ensures
        forall|q: usize| #[trigger] point_in(cs2, q) <==> (point_in(cs, q) || q == p),
        members_distinct(cs2),
{
    let k = cs.len() as int;
    assert forall|q: usize| #[trigger] point_in(cs2, q) implies (point_in(cs, q) || q == p) by {
        let (a, t) = choose|a: int, t: int|
            0 <= a < cs2.len() && 0 <= t < cs2[a].members@.len() && #[trigger] cs2[
                a
            ].members@[t] == q;
        if a < k {
            assert(cs[a].members@[t] == q);
        } else {
            assert(cs2[k].members@[t] == q);
            assert(q == p);
        }
    }
    assert forall|q: usize| (point_in(cs, q) || q == p) implies #[trigger] point_in(cs2, q) by {
        if q == p {
            assert(cs2[k].members@[0] == p);
        } else {
            let (a, t) = choose|a: int, t: int|
                0 <= a < cs.len() && 0 <= t < cs[a].members@.len() && #[trigger] cs[
                    a
                ].members@[t] == q;
            assert(cs2[a].members@[t] == q);
        }
    }
    assert forall|a: int, t: int, b: int, u: int|
        #![trigger cs2[a].members@[t], cs2[b].members@[u]]
        0 <= a < cs2.len() && 0 <= b < cs2.len() && 0 <= t < cs2[a].members@.len() && 0 <= u
            < cs2[b].members@.len() && (a != b || t != u) implies cs2[a].members@[t] != cs2[
        b
    ].members@[u] by {
        if a == k && b == k {
        } else if a == k {
            assert(cs2[a].members@[t] == p);
            if cs2[b].members@[u] == p {
                assert(cs[b].members@[u] == p);
                assert(point_in(cs, p));
            }
        } else if b == k {
            assert(cs2[b].members@[u] == p);
            if cs2[a].members@[t] == p {
                assert(cs[a].members@[t] == p);
                assert(point_in(cs, p));
            }
        } else {
            assert(cs2[a].members@[t] == cs[a].members@[t]);
            assert(cs2[b].members@[u] == cs[b].members@[u]);
        }
    }
}

/// If every flag is set, the count is full.
proof fn lemma_count_all_true(s: Seq<bool>, n: int)
    requires
        0 <= n <= s.len(),
        forall|i: int| 0 <= i < s.len() ==> s[i],
    ensures
        count_true(s, n) == n,
    decreases n,
{
    if n > 0 {
        lemma_count_all_true(s, n - 1);
    }
}

/// Two clusters agreeing on every field view satisfy the same invariant.
proof fn lemma_cluster_wf_congruence(a: Cluster, b: Cluster, m: Matrix, dist: Distance)
    requires
        cluster_wf(a, m, dist),
        b.weight == a.weight,
        b.sum@ == a.sum@,
        b.members@ == a.members@,
        b.radius == a.radius,
    ensures
        cluster_wf(b, m, dist),
{
    assert(mem_sel(b) == mem_sel(a));
    assert(spec_center(b, m.cols as int) =~= spec_center(a, m.cols as int));
}

/// Greedy sequential agglomeration over the converged positions.
///
/// Seeds a cluster on the unassigned point of least fuzz, then sweeps the
/// unassigned points: each joins the nearest cluster when its distance to
/// that centroid is at most the cluster's radius plus the point's own
/// fuzz — the acceptance envelope grows with the cluster's spread and the
/// point's uncertainty.  The comparison is deliberately non-strict: a
/// point exactly on the centroid of a zero-radius cluster, with zero
/// uncertainty, must still join it, as when every point is identical.
/// A sweep without any assignment seeds the next cluster; the process
/// ends when every point is assigned.
#[verifier::loop_isolation(false)]
fn build_clusters(positions: &Matrix, fuzz: &Vec<i64>, dist: Distance) -> (cs: Vec<Cluster>)
    requires
        positions.wf(),
        fuzz@.len() == positions.rows,
        forall|i: int| 0 <= i < fuzz@.len() ==> 0 <= #[trigger] fuzz@[i] <= DIST_MAX,
    ensures
        clusters_wf(cs@, *positions, dist),
        members_distinct(cs@),
        forall|p: usize| p < positions.rows ==> point_in(cs@, p),
        positions.rows == 0 ==> cs@.len() == 0,
        cs@.len() > 0 ==> cs@[0].members@.len() > 0 && is_min_fuzz(fuzz@, cs@[0].members@[0]),
        all_rows_equal(*positions) && (forall|i: int|
            0 <= i < fuzz@.len() ==> #[trigger] fuzz@[i] == 0) && positions.rows > 0
            ==> cs@.len() == 1,
{
    let ghost ident: bool = all_rows_equal(*positions) && (forall|i: int|
        0 <= i < fuzz@.len() ==> #[trigger] fuzz@[i] == 0);
    let n = positions.n_rows();
    let mut assigned: Vec<bool> = Vec::new();
    for i in 0..n
        invariant
            assigned@.len() == i,
            forall|q: int| 0 <= q < i ==> !(#[trigger] assigned@[q]),
    {
        assigned.push(false);
    }
    let mut count: usize = 0;
    proof {
        lemma_count_all_false(assigned@, n as int);
    }
    let mut clusters: Vec<Cluster> = Vec::new();
    while count < n
        invariant
            assigned@.len() == n,
            count == count_true(assigned@, n as int),
            count <= n,
            clusters_wf(clusters@, *positions, dist),
            members_distinct(clusters@),
            clusters@.len() <= count,
            forall|i: int|
                0 <= i < clusters@.len() ==> (#[trigger] clusters@[i]).weight <= count,
            forall|q: usize|
                q < n ==> ((#[trigger] assigned@[q as int]) <==> point_in(clusters@, q)),
            n == 0 ==> clusters@.len() == 0,
            clusters@.len() > 0 ==> clusters@[0].members@.len() > 0 && is_min_fuzz(
                fuzz@,
                clusters@[0].members@[0],
            ),
            ident ==> clusters@.len() <= 1,
        decreases n - count,
    {
        let ghost count0 = count;
        let mut moved: usize = 0;
        for p in 0..n
            invariant
                assigned@.len() == n,
                count == count_true(assigned@, n as int),
                count <= n,
                count == count0 + moved,
                clusters_wf(clusters@, *positions, dist),
                members_distinct(clusters@),
                clusters@.len() <= count,
                forall|i: int|
                    0 <= i < clusters@.len() ==> (#[trigger] clusters@[i]).weight <= count,
                forall|q: usize|
                    q < n ==> ((#[trigger] assigned@[q as int]) <==> point_in(clusters@, q)),
                n == 0 ==> clusters@.len() == 0,
                clusters@.len() > 0 ==> clusters@[0].members@.len() > 0 && is_min_fuzz(
                    fuzz@,
                    clusters@[0].members@[0],
                ),
                ident ==> clusters@.len() <= 1,
                ident && clusters@.len() == 1 ==> forall|q: int|
                    0 <= q < p ==> #[trigger] assigned@[q],
        {
            if !assigned[p] {
                let prow = positions.row(p);
                proof {
                    positions.lemma_row_valid(p as int);
                }
                match nearest_cluster(&clusters, positions, dist, &prow) {
                    Some((ci, d)) => {
                        let rad = clusters[ci].radius;
                        let fz = fuzz[p];
                        proof {
                            // over identical rows and zero fuzz the nearest
                            // cluster always accepts: its centroid is the
                            // common row, at distance zero
                            if ident && clusters@.len() == 1 {
                                lemma_center_identical(
                                    clusters@[0],
                                    *positions,
                                    dist,
                                    p as int,
                                );
                                positions.lemma_row_valid(p as int);
                                lemma_measure_self_zero(dist, prow@);
                                assert(d == 0);
                                assert(fz == 0);
                                if count == n {
                                    lemma_count_full(assigned@, n as int);
                                }
                                assert(count < n);
                                assert(clusters@[ci as int].weight <= count);
                            }
                        }
                        if d <= rad + fz && clusters[ci].weight < ROWS_MAX {
                            let ghost before = clusters@;
                            let mut c2 = clone_cluster(&clusters[ci]);
                            proof {
                                lemma_cluster_wf_congruence(
                                    before[ci as int],
                                    c2,
                                    *positions,
                                    dist,
                                );
                            }
                            let _cid = c2.merge_point(positions, p, dist);
                            clusters[ci] = c2;
                            proof {
                                lemma_count_update(assigned@, p as int, n as int);
                                lemma_count_true_le(assigned@.update(p as int, true), n as int);
                                lemma_point_in_update_add(before, clusters@, ci as int, p);
                                lemma_distinct_update_add(before, clusters@, ci as int, p);
                                assert forall|q: usize|
                                    q < n && q != p implies (point_in(clusters@, q) <==> point_in(
                                    before,
                                    q,
                                )) by {}
                            }
                            assigned[p] = true;
                            count = count + 1;
                            moved = moved + 1;
                        }
                    },
                    None => {
                    },
                }
            }
        }
        if moved == 0 {
            match best_candidate(fuzz, &assigned) {
                Some(seed) => {
                    let ghost before = clusters@;
                    proof {
                        if before.len() == 0 {
                            assert forall|q: int| 0 <= q < n implies !assigned@[q] by {
                                assert(!point_in(before, q as usize));
                            }
                        }
                        if ident && before.len() == 1 {
                            // the sweep assigned every point, so no seed
                            // candidate can remain
                            lemma_count_all_true(assigned@, n as int);
                            assert(false);
                        }
                    }
                    let c = Cluster::init(clusters.len() + 1, positions, seed, dist);
                    clusters.push(c);
                    proof {
                        lemma_count_update(assigned@, seed as int, n as int);
                        lemma_count_true_le(assigned@.update(seed as int, true), n as int);
                        lemma_push_singleton(before, clusters@, seed);
                        if before.len() == 0 {
                            assert(clusters@[0].members@[0] == seed);
                        }
                    }
                    assigned[seed] = true;
                    count = count + 1;
                },
                None => {
                    proof {
                        lemma_count_all_true(assigned@, n as int);
                    }
                    break ;
                },
            }
        }
    }
    proof {
        lemma_count_full(assigned@, n as int);
        assert forall|p: usize| p < positions.rows implies point_in(clusters@, p) by {
            assert(assigned@[p as int]);
        }
        if ident && positions.rows > 0 {
            assert(point_in(clusters@, 0usize));
            assert(clusters@.len() == 1);
        }
    }
    clusters
}

/// An all-false flag vector counts zero.
proof fn lemma_count_all_false(s: Seq<bool>, n: int)
    requires
        0 <= n <= s.len(),
        forall|i: int| 0 <= i < s.len() ==> !(#[trigger] s[i]),
    ensures
        count_true(s, n) == 0,
    decreases n,
{
    if n > 0 {
        lemma_count_all_false(s, n - 1);
    }
}

} // verus!

verus! {

/// Clusters whose invariant holds without regard to their ids.
pub open spec fn clusters_pre_wf(cs: Seq<Cluster>, m: Matrix, dist: Distance) -> bool {
    forall|i: int| 0 <= i < cs.len() ==> cluster_wf(#[trigger] cs[i], m, dist)
}

/// Two cluster lists with pointwise equal memberships hold the same
/// points, equally distinctly.
proof fn lemma_membership_congruent(a: Seq<Cluster>, b: Seq<Cluster>)
    requires
        a.len() == b.len(),
        forall|i: int| 0 <= i < a.len() ==> (#[trigger] a[i]).members@ == b[i].members@,
    ensures
        forall|q: usize| #[trigger] point_in(a, q) <==> point_in(b, q),
        members_distinct(a) <==> members_distinct(b),
{
    assert forall|q: usize| #[trigger] point_in(a, q) implies point_in(b, q) by {
        let (x, t) = choose|x: int, t: int|
            0 <= x < a.len() && 0 <= t < a[x].members@.len() && #[trigger] a[x].members@[t] == q;
        assert(b[x].members@[t] == q);
    }
    assert forall|q: usize| point_in(b, q) implies #[trigger] point_in(a, q) by {
        let (x, t) = choose|x: int, t: int|
            0 <= x < b.len() && 0 <= t < b[x].members@.len() && #[trigger] b[x].members@[t] == q;
        assert(a[x].members@[t] == q);
    }
    if members_distinct(a) {
        assert forall|x: int, t: int, y: int, u: int|
            #![trigger b[x].members@[t], b[y].members@[u]]
            0 <= x < b.len() && 0 <= y < b.len() && 0 <= t < b[x].members@.len() && 0 <= u < b[
                y
            ].members@.len() && (x != y || t != u) implies b[x].members@[t] != b[
            y
        ].members@[u] by {
            assert(a[x].members@[t] == b[x].members@[t]);
            assert(a[y].members@[u] == b[y].members@[u]);
        }
    }
    if members_distinct(b) {
        assert forall|x: int, t: int, y: int, u: int|
            #![trigger a[x].members@[t], a[y].members@[u]]
            0 <= x < a.len() && 0 <= y < a.len() && 0 <= t < a[x].members@.len() && 0 <= u < a[
                y
            ].members@.len() && (x != y || t != u) implies a[x].members@[t] != a[
            y
        ].members@[u] by {
            assert(b[x].members@[t] == a[x].members@[t]);
            assert(b[y].members@[u] == a[y].members@[u]);
        }
    }
}

/// Merging cluster `j` into cluster `i` and removing `j` keeps the same
/// points clustered, distinctly.
proof fn lemma_merge_pair(cs: Seq<Cluster>, cs2: Seq<Cluster>, i: int, j: int, merged: Cluster)
    requires
        0 <= i < j < cs.len(),
        merged.members@ == cs[i].members@ + cs[j].members@,
        cs2 == cs.update(i, merged).remove(j),
        members_distinct(cs),
    ensures
        forall|q: usize| #[trigger] point_in(cs2, q) <==> point_in(cs, q),
        members_distinct(cs2),
{
    let leni = cs[i].members@.len() as int;
    let lenj = cs[j].members@.len() as int;
    assert forall|q: usize| #[trigger] point_in(cs2, q) implies point_in(cs, q) by {
        let (a, t) = choose|a: int, t: int|
            0 <= a < cs2.len() && 0 <= t < cs2[a].members@.len() && #[trigger] cs2[
                a
            ].members@[t] == q;
        if a == i {
            if t < leni {
                assert(cs[i].members@[t] == q);
            } else {
                assert(cs[j].members@[t - leni] == q);
            }
        } else if a < j {
            assert(cs[a].members@[t] == q);
        } else {
            assert(cs[a + 1].members@[t] == q);
        }
    }
    assert forall|q: usize| point_in(cs, q) implies #[trigger] point_in(cs2, q) by {
        let (a, t) = choose|a: int, t: int|
            0 <= a < cs.len() && 0 <= t < cs[a].members@.len() && #[trigger] cs[
                a
            ].members@[t] == q;
        if a == i {
            assert(cs2[i].members@[t] == q);
        } else if a == j {
            assert(cs2[i].members@[leni + t] == q);
        } else if a < j {
            assert(cs2[a].members@[t] == q);
        } else {
            assert(cs2[a - 1].members@[t] == q);
        }
    }
    assert forall|a: int, t: int, b: int, u: int|
        #![trigger cs2[a].members@[t], cs2[b].members@[u]]
        0 <= a < cs2.len() && 0 <= b < cs2.len() && 0 <= t < cs2[a].members@.len() && 0 <= u
            < cs2[b].members@.len() && (a != b || t != u) implies cs2[a].members@[t] != cs2[
        b
    ].members@[u] by {
        let (a1, t1): (int, int) = if a == i {
            if t < leni {
                (i, t)
            } else {
                (j, t - leni)
            }
        } else if a < j {
            (a, t)
        } else {
            (a + 1, t)
        };
        let (b1, u1): (int, int) = if b == i {
            if u < leni {
                (i, u)
            } else {
                (j, u - leni)
            }
        } else if b < j {
            (b, u)
        } else {
            (b + 1, u)
        };
        assert(cs2[a].members@[t] == cs[a1].members@[t1]);
        assert(cs2[b].members@[u] == cs[b1].members@[u1]);
        assert(a1 != b1 || t1 != u1);
    }
}

/// Two clusters the merge policy would join: centre distance at most
/// `merge_factor / SCALE` times the sum of their radii plus the absolute
/// base `merge_distance`, with a combined weight the invariants can
/// carry.
pub open spec fn spec_mergeable(
    a: Cluster,
    b: Cluster,
    cols: int,
    dist: Distance,
    mf: int,
    md: int,
) -> bool {
    &&& a.weight + b.weight <= ROWS_MAX
    &&& spec_measure(dist, spec_center(a, cols), spec_center(b, cols)) * SCALE <= mf * (
    a.radius + b.radius) + md * SCALE
}

/// No two distinct clusters of the list are still mergeable.
pub open spec fn merge_fixpoint(cs: Seq<Cluster>, cols: int, dist: Distance, mf: int, md: int) -> bool {
    forall|a: int, b: int|
        0 <= a < b < cs.len() ==> !spec_mergeable(
            #[trigger] cs[a],
            #[trigger] cs[b],
            cols,
            dist,
            mf,
            md,
        )
}

/// The closest mergeable pair of the list, or `None` exactly when the
/// list is already a merge fixpoint.
#[verifier::loop_isolation(false)]
fn find_mergeable_pair(
    work: &Vec<Cluster>,
    positions: &Matrix,
    dist: Distance,
    merge_factor: i64,
    merge_distance: i64,
) -> (r: Option<(usize, usize, i64)>)
    requires
        positions.wf(),
        0 <= merge_factor <= 16_000_000,
        0 <= merge_distance <= DIST_MAX,
        clusters_pre_wf(work@, *positions, dist),
    ensures
        r is None <==> merge_fixpoint(
            work@,
            positions.cols as int,
            dist,
            merge_factor as int,
            merge_distance as int,
        ),
        match r {
            Some(p) => {
                &&& p.0 < p.1 < work@.len()
                &&& spec_mergeable(
                    work@[p.0 as int],
                    work@[p.1 as int],
                    positions.cols as int,
                    dist,
                    merge_factor as int,
                    merge_distance as int,
                )
                &&& p.2 == spec_measure(
                    dist,
                    spec_center(work@[p.0 as int], positions.cols as int),
                    spec_center(work@[p.1 as int], positions.cols as int),
                )
                &&& forall|a: int, b: int|
                    0 <= a < b < work@.len() && spec_mergeable(
                        #[trigger] work@[a],
                        #[trigger] work@[b],
                        positions.cols as int,
                        dist,
                        merge_factor as int,
                        merge_distance as int,
                    ) ==> p.2 <= spec_measure(
                        dist,
                        spec_center(work@[a], positions.cols as int),
                        spec_center(work@[b], positions.cols as int),
                    )
            },
            None => true,
        },
{
    let wl = work.len();
    let ghost cols: int = positions.cols as int;
    let ghost mf: int = merge_factor as int;
    let ghost md: int = merge_distance as int;
    let mut bestpair: Option<(usize, usize, i64)> = None;
    for i in 0..wl
        invariant
            wl == work@.len(),
            bestpair is None ==> forall|a: int, b: int|
                0 <= a < b < wl && a < i ==> !spec_mergeable(
                    #[trigger] work@[a],
                    #[trigger] work@[b],
                    cols,
                    dist,
                    mf,
                    md,
                ),
            match bestpair {
                Some(p) => {
                    &&& p.0 < p.1 < wl
                    &&& spec_mergeable(work@[p.0 as int], work@[p.1 as int], cols, dist, mf, md)
                    &&& p.2 == spec_measure(
                        dist,
                        spec_center(work@[p.0 as int], cols),
                        spec_center(work@[p.1 as int], cols),
                    )
                    &&& forall|a: int, b: int|
                        0 <= a < b < wl && a < i && spec_mergeable(
                            #[trigger] work@[a],
                            #[trigger] work@[b],
                            cols,
                            dist,
                            mf,
                            md,
                        ) ==> p.2 <= spec_measure(
                            dist,
                            spec_center(work@[a], cols),
                            spec_center(work@[b], cols),
                        )
                },
                None => true,
            },
    {
        for j in (i + 1)..wl
            invariant
                wl == work@.len(),
                i < wl,
                bestpair is None ==> forall|a: int, b: int|
                    0 <= a < b < wl && (a < i || (a == i && b < j)) ==> !spec_mergeable(
                        #[trigger] work@[a],
                        #[trigger] work@[b],
                        cols,
                        dist,
                        mf,
                        md,
                    ),
                match bestpair {
                    Some(p) => {
                        &&& p.0 < p.1 < wl
                        &&& spec_mergeable(
                            work@[p.0 as int],
                            work@[p.1 as int],
                            cols,
                            dist,
                            mf,
                            md,
                        )
                        &&& p.2 == spec_measure(
                            dist,
                            spec_center(work@[p.0 as int], cols),
                            spec_center(work@[p.1 as int], cols),
                        )
                        &&& forall|a: int, b: int|
                            0 <= a < b < wl && (a < i || (a == i && b < j)) && spec_mergeable(
                                #[trigger] work@[a],
                                #[trigger] work@[b],
                                cols,
                                dist,
                                mf,
                                md,
                            ) ==> p.2 <= spec_measure(
                                dist,
                                spec_center(work@[a], cols),
                                spec_center(work@[b], cols),
                            )
                    },
                    None => true,
                },
        {
            let ci = work[i].center(positions, dist);
            let cj = work[j].center(positions, dist);
            let d = dist.measure(&ci, &cj);
            let ri = work[i].radius;
            let rj = work[j].radius;
            proof {
                assert(d * SCALE <= 2_147_483_648_000_000int) by (nonlinear_arith)
                    requires
                        0 <= d <= DIST_MAX,
                        DIST_MAX == 2_147_483_648,
                        SCALE == 1_000_000,
                ;
                assert(0 <= merge_factor * (ri + rj) <= 68_719_476_752_000_000int)
                    by (nonlinear_arith)
                    requires
                        0 <= merge_factor <= 16_000_000,
                        0 <= ri <= DIST_MAX,
                        0 <= rj <= DIST_MAX,
                        DIST_MAX == 2_147_483_648,
                ;
                assert(0 <= merge_distance * SCALE <= 2_147_483_648_000_000int)
                    by (nonlinear_arith)
                    requires
                        0 <= merge_distance <= DIST_MAX,
                        DIST_MAX == 2_147_483_648,
                        SCALE == 1_000_000,
                ;
            }
            if d * SCALE <= merge_factor * (ri + rj) + merge_distance * SCALE && work[i].weight
                + work[j].weight <= ROWS_MAX {
                match bestpair {
                    None => {
                        bestpair = Some((i, j, d));
                    },
                    Some(p) => {
                        if d < p.2 {
                            bestpair = Some((i, j, d));
                        }
                    },
                }
            } else {
                proof {
                    assert(!spec_mergeable(work@[i as int], work@[j as int], cols, dist, mf, md));
                }
            }
        }
    }
    bestpair
}

/// One fixpoint pass of cluster merging.
///
/// Repeatedly merges the closest mergeable pair (see `spec_mergeable`)
/// into the lower-positioned cluster until no pair qualifies; the
/// survivors are then renumbered consecutively from one, in their
/// surviving order.  Which points are clustered together only ever
/// coarsens: no member is lost or invented, and the result is a merge
/// fixpoint.
#[verifier::loop_isolation(false)]
fn merge_pass(clusters: Vec<Cluster>, positions: &Matrix, dist: Distance, merge_factor: i64, merge_distance: i64) -> (cs: Vec<Cluster>)
    requires
        positions.wf(),
        0 <= merge_factor <= 16_000_000,
        0 <= merge_distance <= DIST_MAX,
        clusters_wf(clusters@, *positions, dist),
        members_distinct(clusters@),
    ensures
        clusters_wf(cs@, *positions, dist),
        members_distinct(cs@),
        forall|q: usize| #[trigger] point_in(cs@, q) <==> point_in(clusters@, q),
        cs@.len() <= clusters@.len(),
        clusters@.len() > 0 ==> cs@.len() > 0,
        clusters@.len() > 0 && clusters@[0].members@.len() > 0 ==> cs@[0].members@.len() > 0
            && cs@[0].members@[0] == clusters@[0].members@[0],
        merge_fixpoint(
            cs@,
            positions.cols as int,
            dist,
            merge_factor as int,
            merge_distance as int,
        ),
{
    let ghost orig = clusters@;
    let ghost cols: int = positions.cols as int;
    let ghost mf: int = merge_factor as int;
    let ghost md: int = merge_distance as int;
    let mut work = clusters;
    proof {
        assert(clusters_pre_wf(work@, *positions, dist));
    }
    let mut done = false;
    while !done
        invariant
            clusters_pre_wf(work@, *positions, dist),
            members_distinct(work@),
            forall|q: usize| #[trigger] point_in(work@, q) <==> point_in(orig, q),
            work@.len() <= orig.len(),
            orig.len() > 0 ==> work@.len() > 0,
            orig.len() > 0 && orig[0].members@.len() > 0 ==> work@[0].members@.len() > 0
                && work@[0].members@[0] == orig[0].members@[0],
            done ==> merge_fixpoint(work@, cols, dist, mf, md),
        decreases work@.len() + (if done {
            0int
        } else {
            1int
        }),
    {
        match find_mergeable_pair(&work, positions, dist, merge_factor, merge_distance) {
            None => {
                done = true;
            },
            Some(p) => {
                let (i, j, _d) = p;
                let ghost before = work@;
                let merged = work[i].merge_cluster(&work[j], positions, dist);
                work[i] = merged;
                let _removed = work.remove(j);
                proof {
                    lemma_merge_pair(before, work@, i as int, j as int, merged);
                }
            },
        }
    }
    let mut out: Vec<Cluster> = Vec::new();
    let ghost merged_stage = work@;
    let total = work.len();
    while work.len() > 0
        invariant
            clusters_pre_wf(work@, *positions, dist),
            clusters_wf(out@, *positions, dist),
            total == merged_stage.len(),
            out@.len() + work@.len() == merged_stage.len(),
            forall|i: int|
                0 <= i < out@.len() ==> (#[trigger] out@[i]).members@ == merged_stage[i].members@
                    && out@[i].sum@ == merged_stage[i].sum@ && out@[i].weight == merged_stage[
                    i
                ].weight && out@[i].radius == merged_stage[i].radius,
            forall|i: int|
                0 <= i < work@.len() ==> (#[trigger] work@[i]) == merged_stage[out@.len() + i],
        decreases work@.len(),
    {
        let mut c = work.remove(0);
        c.id = out.len() + 1;
        proof {
            lemma_cluster_wf_congruence(
                merged_stage[out@.len() as int],
                c,
                *positions,
                dist,
            );
        }
        out.push(c);
    }
    proof {
        assert forall|i: int| 0 <= i < out@.len() implies (#[trigger] out@[i]).members@
            == merged_stage[i].members@ by {}
        lemma_membership_congruent(out@, merged_stage);
        assert forall|a: int, b: int| 0 <= a < b < out@.len() implies !spec_mergeable(
            #[trigger] out@[a],
            #[trigger] out@[b],
            cols,
            dist,
            mf,
            md,
        ) by {
            assert(spec_center(out@[a], cols) =~= spec_center(merged_stage[a], cols));
            assert(spec_center(out@[b], cols) =~= spec_center(merged_stage[b], cols));
            assert(!spec_mergeable(merged_stage[a], merged_stage[b], cols, dist, mf, md));
        }
    }
    out
}

} // verus!

verus! {

/// Descending a dataset of identical rows freezes every point: any fit
/// outcome over it leaves all converged positions equal to the common
/// row and every fuzz zero — the degenerate fit the predict paths then
/// collapse to a single cluster covering all points.
pub proof fn lemma_identical_fit_is_degenerate(g: GravityField)
    requires
        g.base_wf(),
        g.fitted(),
        all_rows_equal(g.gravity_points),
        forall|i: int|
            0 <= i < g.gravity_points.rows ==> #[trigger] ensemble_outcome(
                g.gravity_points,
                i,
                g.parameters.smoothing as int,
                g.parameters.distance,
                g.parameters.scaling_factor as int,
                g.parameters.fuzz_trials as int,
                g.final_positions.unwrap().row_seq(i),
                g.fuzz@[i],
            ),
    ensures
        g.degenerate_fit(),
{
    let m = g.final_positions.unwrap();
    assert forall|i: int| 0 <= i < m.rows implies #[trigger] m.row_seq(i)
        == g.gravity_points.row_seq(i) && g.fuzz@[i] == 0 by {
        lemma_ensemble_identical(
            g.gravity_points,
            i,
            g.parameters.smoothing as int,
            g.parameters.distance,
            g.parameters.scaling_factor as int,
            g.parameters.fuzz_trials as int,
            m.row_seq(i),
            g.fuzz@[i],
        );
    }
    assert forall|p: int, q: int| 0 <= p < m.rows && 0 <= q < m.rows implies #[trigger] m.row_seq(
        p,
    ) == #[trigger] m.row_seq(q) by {
        assert(g.gravity_points.row_seq(p) == g.gravity_points.row_seq(q));
    }
    assert forall|i: int| 0 <= i < g.fuzz@.len() implies #[trigger] g.fuzz@[i] == 0 by {
        assert(m.row_seq(i) == g.gravity_points.row_seq(i));
    }
}

/// The labels `emit_labels` produces are completely determined by the
/// cluster list: every member carries its cluster's id, everything else
/// carries zero.
pub open spec fn labels_match(cs: Seq<Cluster>, n: int, l: Seq<usize>) -> bool {
    &&& l.len() == n
    &&& forall|a: int, t: int|
        #![trigger cs[a].members@[t]]
        0 <= a < cs.len() && 0 <= t < cs[a].members@.len() ==> l[cs[a].members@[t] as int]
            == cs[a].id
    &&& forall|p: int| 0 <= p < n && !point_in(cs, p as usize) ==> #[trigger] l[p] == 0
}

/// Labels that match one cluster list are unique: predicting twice over
/// the same clusters yields letter-for-letter identical labels.
pub proof fn lemma_labels_determined(cs: Seq<Cluster>, n: int, l1: Seq<usize>, l2: Seq<usize>)
    requires
        forall|a: int, t: int|
            #![trigger cs[a].members@[t]]
            0 <= a < cs.len() && 0 <= t < cs[a].members@.len() ==> 0 <= cs[a].members@[t] < n,
        0 <= n <= usize::MAX,
        labels_match(cs, n, l1),
        labels_match(cs, n, l2),
    ensures
        l1 == l2,
{
    assert forall|p: int| 0 <= p < n implies l1[p] == l2[p] by {
        if point_in(cs, p as usize) {
            let (a, t) = choose|a: int, t: int|
                0 <= a < cs.len() && 0 <= t < cs[a].members@.len() && #[trigger] cs[
                    a
                ].members@[t] == p as usize;
            assert(cs[a].members@[t] as int == p);
            assert(l1[p] == cs[a].id);
            assert(l2[p] == cs[a].id);
        }
    }
    assert(l1 =~= l2);
}

/// Writes each point's label: the id of the cluster holding it, zero for
/// a point no cluster holds.  Every label is at most the cluster count.
#[verifier::loop_isolation(false)]
fn emit_labels(clusters: &Vec<Cluster>, n: usize) -> (r: Vec<usize>)
    requires
        forall|i: int|
            0 <= i < clusters@.len() ==> (#[trigger] clusters@[i]).id == i + 1,
        forall|a: int, t: int|
            #![trigger clusters@[a].members@[t]]
            0 <= a < clusters@.len() && 0 <= t < clusters@[a].members@.len() ==> clusters@[
                a
            ].members@[t] < n,
        members_distinct(clusters@),
    ensures
        labels_match(clusters@, n as int, r@),
        forall|p: int| 0 <= p < n ==> #[trigger] r@[p] <= clusters@.len(),
        forall|p: int|
            0 <= p < n ==> ((#[trigger] r@[p] == 0) <==> !point_in(clusters@, p as usize)),
{
    let mut labels: Vec<usize> = Vec::new();
    for p in 0..n
        invariant
            labels@.len() == p,
            forall|q: int| 0 <= q < p ==> #[trigger] labels@[q] == 0,
    {
        labels.push(0);
    }
    let nc = clusters.len();
    for a in 0..nc
        invariant
            nc == clusters@.len(),
            labels@.len() == n,
            forall|b: int, u: int|
                #![trigger clusters@[b].members@[u]]
                0 <= b < a && 0 <= u < clusters@[b].members@.len() ==> labels@[clusters@[
                    b
                ].members@[u] as int] == clusters@[b].id,
            forall|q: int|
                0 <= q < n && #[trigger] labels@[q] != 0 ==> point_in_prefix(
                    clusters@,
                    a as int,
                    q as usize,
                ),
            forall|q: int| 0 <= q < n ==> #[trigger] labels@[q] <= clusters@.len(),
    {
        let k = clusters[a].members.len();
        let cid = clusters[a].id;
        for t in 0..k
            invariant
                nc == clusters@.len(),
                a < nc,
                cid == clusters@[a as int].id,
                cid == a + 1,
                k == clusters@[a as int].members@.len(),
                labels@.len() == n,
                forall|b: int, u: int|
                    #![trigger clusters@[b].members@[u]]
                    0 <= b < a && 0 <= u < clusters@[b].members@.len() ==> labels@[clusters@[
                        b
                    ].members@[u] as int] == clusters@[b].id,
                forall|u: int|
                    0 <= u < t ==> labels@[clusters@[a as int].members@[u] as int] == cid,
                forall|q: int|
                    0 <= q < n && #[trigger] labels@[q] != 0 ==> (point_in_prefix(
                        clusters@,
                        a as int,
                        q as usize,
                    ) || (exists|u: int|
                        0 <= u < t && clusters@[a as int].members@[u] == q as usize)),
                forall|q: int| 0 <= q < n ==> #[trigger] labels@[q] <= clusters@.len(),
        {
            let m = clusters[a].members[t];
            let ghost before = labels@;
            labels[m] = cid;
            proof {
                assert forall|b: int, u: int|
                    #![trigger clusters@[b].members@[u]]
                    0 <= b < a && 0 <= u < clusters@[b].members@.len() implies labels@[clusters@[
                    b
                ].members@[u] as int] == clusters@[b].id by {
                    if clusters@[b].members@[u] == m {
                        assert(clusters@[b].members@[u] != clusters@[a as int].members@[
                            t as int
                        ]);
                    }
                }
            }
        }
        proof {
            assert forall|q: int|
                0 <= q < n && #[trigger] labels@[q] != 0 implies point_in_prefix(
                clusters@,
                a as int + 1,
                q as usize,
            ) by {
                if point_in_prefix(clusters@, a as int, q as usize) {
                    let (b, u) = choose|b: int, u: int|
                        0 <= b < a as int && b < clusters@.len() && 0 <= u < clusters@[
                            b
                        ].members@.len() && #[trigger] clusters@[b].members@[u] == q as usize;
                    assert(0 <= b < a as int + 1 && clusters@[b].members@[u] == q as usize);
                } else {
                    let u = choose|u: int|
                        0 <= u < k && clusters@[a as int].members@[u] == q as usize;
                    assert(clusters@[a as int].members@[u] == q as usize);
                }
            }
        }
    }
    proof {
        assert forall|p: int|
            0 <= p < n implies ((#[trigger] labels@[p] == 0) <==> !point_in(
            clusters@,
            p as usize,
        )) by {
            if point_in(clusters@, p as usize) {
                let (a, t) = choose|a: int, t: int|
                    0 <= a < clusters@.len() && 0 <= t < clusters@[a].members@.len()
                        && #[trigger] clusters@[a].members@[t] == p as usize;
                assert(labels@[p] == clusters@[a].id);
            } else {
                if labels@[p] != 0 {
                    let (a, t) = choose|a: int, t: int|
                        0 <= a < clusters@.len() && a < clusters@.len() && 0 <= t < clusters@[
                            a
                        ].members@.len() && #[trigger] clusters@[a].members@[t] == p as usize;
                    assert(false);
                }
            }
        }
    }
    labels
}

} // verus!

verus! {

/// The dataset-level orchestrator of one fit/predict cycle.
pub struct GravityField {
    /// The immutable dataset: one row per point.
    pub gravity_points: Matrix,
    /// The converged positions of the last fit pass, if one ran.
    pub final_positions: Option<Matrix>,
    /// Per-point uncertainty of the last fit pass.
    pub fuzz: Vec<i64>,
    /// The realized clusters of the last clustering pass.
    pub clusters: Vec<Cluster>,
    /// The tunables of this cycle.
    pub parameters: Parameters,
}

impl GravityField {
    /// Dataset and tunables are in range.
    pub open spec fn base_wf(&self) -> bool {
        &&& self.gravity_points.wf()
        &&& params_valid(self.parameters)
    }

    /// A fit pass has produced converged positions and a fuzz vector of
    /// the dataset's shape.
    pub open spec fn fitted(&self) -> bool {
        match self.final_positions {
            Some(m) => {
                &&& m.wf()
                &&& m.rows == self.gravity_points.rows
                &&& m.cols == self.gravity_points.cols
                &&& self.fuzz@.len() == m.rows
                &&& forall|i: int|
                    0 <= i < self.fuzz@.len() ==> 0 <= #[trigger] self.fuzz@[i] <= DIST_MAX
            },
            None => false,
        }
    }

    /// Whatever fit state exists is coherent: if converged positions are
    /// present at all, they came from a fit pass of the dataset's shape.
    pub open spec fn fit_state_ok(&self) -> bool {
        self.final_positions is Some ==> self.fitted()
    }

    /// The degenerate fit every solver freezes on: all converged
    /// positions identical and every fuzz zero, as when the whole dataset
    /// is one repeated point.
    pub open spec fn degenerate_fit(&self) -> bool {
        match self.final_positions {
            Some(m) => all_rows_equal(m) && (forall|i: int|
                0 <= i < self.fuzz@.len() ==> #[trigger] self.fuzz@[i] == 0),
            None => false,
        }
    }

    /// The cluster list is coherent with the converged positions: absent
    /// before a fit, well formed and disjoint after one.
    pub open spec fn clusters_ok(&self) -> bool {
        match self.final_positions {
            Some(m) => {
                &&& clusters_wf(self.clusters@, m, self.parameters.distance)
                &&& members_distinct(self.clusters@)
            },
            None => self.clusters@.len() == 0,
        }
    }

    /// Takes ownership of a dataset after checking the tunables.
    ///
    /// Returns `Ok` exactly when the parameter bundle is valid; an
    /// out-of-range damping fraction is refused as the fatal scaling
    /// error, any other offending tunable as `InvalidParameter`.  (A
    /// dataset with an entry out of range is refused earlier, by
    /// `Matrix::new`.)
    pub fn init(gravity_points: Matrix, parameters: Parameters) -> (r: Result<
        GravityField,
        GravityError,
    >)
        requires
            gravity_points.wf(),
        ensures
            match r {
                Ok(g) => {
                    &&& g.base_wf()
                    &&& g.gravity_points == gravity_points
                    &&& g.parameters == parameters
                    &&& g.final_positions is None
                    &&& g.fuzz@.len() == 0
                    &&& g.clusters@.len() == 0
                },
                Err(e) => {
                    &&& !params_valid(parameters)
                    &&& (e == GravityError::InvalidScalingFactor <==> !(0
                        < parameters.scaling_factor <= SCALE))
                },
            },
            r is Ok <==> params_valid(parameters),
    {
        match parameters.validate() {
            Ok(()) => {
                proof {
                    assert(params_valid(parameters));
                }
                Ok(
                    GravityField {
                        gravity_points,
                        final_positions: None,
                        fuzz: Vec::new(),
                        clusters: Vec::new(),
                        parameters,
                    },
                )
            },
            Err(e) => Err(e),
        }
    }

    /// The fit pass: one solver ensemble per point, run over every point
    /// of the dataset.
    ///
    /// On success the converged position of every point stands in
    /// `final_positions`, its ensemble deviation in `fuzz`, and any stale
    /// clusters are dropped.  With a single ensemble trial every fuzz
    /// value is exactly zero.  A point that exhausts its step budget
    /// aborts the whole run with `NonConvergent`, naming the point.
    #[verifier::loop_isolation(false)]
    pub fn fit(&mut self) -> (r: Result<(), GravityError>)
        requires
            old(self).base_wf(),
        ensures
            final(self).gravity_points == old(self).gravity_points,
            final(self).parameters == old(self).parameters,
            final(self).base_wf(),
            match r {
                Ok(()) => {
                    &&& final(self).fitted()
                    &&& final(self).clusters@.len() == 0
                    &&& final(self).clusters_ok()
                    &&& (old(self).parameters.fuzz_trials == 1 ==> forall|i: int|
                        0 <= i < final(self).fuzz@.len() ==> #[trigger] final(self).fuzz@[i]
                            == 0)
                    &&& forall|i: int|
                        0 <= i < old(self).gravity_points.rows ==> #[trigger] ensemble_outcome(
                            old(self).gravity_points,
                            i,
                            old(self).parameters.smoothing as int,
                            old(self).parameters.distance,
                            old(self).parameters.scaling_factor as int,
                            old(self).parameters.fuzz_trials as int,
                            final(self).final_positions.unwrap().row_seq(i),
                            final(self).fuzz@[i],
                        )
                },
                Err(e) => (match e {
                    GravityError::NonConvergent { point } => point
                        < old(self).gravity_points.rows,
                    _ => false,
                }) && *final(self) == *old(self),
            },
    {
        let n = self.gravity_points.n_rows();
        let cols = self.gravity_points.n_cols();
        let trials = self.parameters.fuzz_trials;
        let mut rows_out: Vec<Vec<i64>> = Vec::new();
        let mut fuzz_out: Vec<i64> = Vec::new();
        for i in 0..n
            invariant
                *self == *old(self),
                rows_out@.len() == i,
                fuzz_out@.len() == i,
                forall|t: int|
                    0 <= t < i ==> (#[trigger] rows_out@[t])@.len() == cols && bounded_seq(
                        rows_out@[t]@,
                    ),
                forall|t: int| 0 <= t < i ==> 0 <= #[trigger] fuzz_out@[t] <= DIST_MAX,
                trials == 1 ==> forall|t: int| 0 <= t < i ==> #[trigger] fuzz_out@[t] == 0,
                forall|t: int|
                    0 <= t < i ==> ensemble_outcome(
                        self.gravity_points,
                        t,
                        self.parameters.smoothing as int,
                        self.parameters.distance,
                        self.parameters.scaling_factor as int,
                        self.parameters.fuzz_trials as int,
                        (#[trigger] rows_out@[t])@,
                        fuzz_out@[t],
                    ),
        {
            let mut pathfinder = Pathfinder::init(i, n, cols, &self.parameters);
            match pathfinder.fuzzy_descend(trials, &self.gravity_points) {
                Ok(out) => {
                    let (avg, deviation, _displacement) = out;
                    rows_out.push(avg);
                    fuzz_out.push(deviation);
                },
                Err(e) => {
                    return Err(e);
                },
            }
        }
        let positions = Matrix::from_rows(rows_out, cols);
        self.final_positions = Some(positions);
        self.fuzz = fuzz_out;
        self.clusters = Vec::new();
        Ok(())
    }

    /// Greedy cluster formation over the converged positions; see
    /// `build_clusters` for the policy.  Replaces any previous cluster
    /// list; afterwards every point belongs to exactly one cluster,
    /// cluster `i` carries id `i + 1`, and the first cluster was founded
    /// on the point of least fuzz — the most confidently converged one.
    pub fn cluster_points(&mut self)
        requires
            old(self).base_wf(),
            old(self).fitted(),
        ensures
            final(self).gravity_points == old(self).gravity_points,
            final(self).parameters == old(self).parameters,
            final(self).final_positions == old(self).final_positions,
            final(self).fuzz == old(self).fuzz,
            final(self).base_wf(),
            final(self).fitted(),
            final(self).clusters_ok(),
            forall|p: usize|
                p < old(self).gravity_points.rows ==> point_in(final(self).clusters@, p),
            old(self).gravity_points.rows > 0 ==> final(self).clusters@.len() > 0,
            final(self).clusters@.len() > 0 ==> final(self).clusters@[0].members@.len() > 0
                && is_min_fuzz(old(self).fuzz@, final(self).clusters@[0].members@[0]),
            old(self).degenerate_fit() && old(self).gravity_points.rows > 0
                ==> final(self).clusters@.len() == 1,
    {
        let dist = self.parameters.distance;
        let cs = match &self.final_positions {
            Some(positions) => build_clusters(positions, &self.fuzz, dist),
            None => Vec::new(),
        };
        self.clusters = cs;
        proof {
            if old(self).gravity_points.rows > 0 {
                assert(point_in(self.clusters@, 0usize));
            }
        }
    }

    /// Merges clusters to a fixpoint; see `merge_pass` for the policy.
    /// The surviving clusters hold exactly the points clustered before,
    /// renumbered consecutively from one.
    pub fn merge_clusters(&mut self)
        requires
            old(self).base_wf(),
            old(self).fitted(),
            old(self).clusters_ok(),
        ensures
            final(self).gravity_points == old(self).gravity_points,
            final(self).parameters == old(self).parameters,
            final(self).final_positions == old(self).final_positions,
            final(self).fuzz == old(self).fuzz,
            final(self).base_wf(),
            final(self).fitted(),
            final(self).clusters_ok(),
            forall|q: usize|
                #[trigger] point_in(final(self).clusters@, q) <==> point_in(
                    old(self).clusters@,
                    q,
                ),
            final(self).clusters@.len() <= old(self).clusters@.len(),
            old(self).clusters@.len() > 0 ==> final(self).clusters@.len() > 0,
            old(self).clusters@.len() > 0 && old(self).clusters@[0].members@.len() > 0
                ==> final(self).clusters@[0].members@.len() > 0
                && final(self).clusters@[0].members@[0] == old(self).clusters@[0].members@[0],
            merge_fixpoint(
                final(self).clusters@,
                old(self).gravity_points.cols as int,
                old(self).parameters.distance,
                old(self).parameters.merge_factor as int,
                old(self).parameters.merge_distance as int,
            ),
    {
        let dist = self.parameters.distance;
        let mf = self.parameters.merge_factor;
        let md = self.parameters.merge_distance;
        let mut work: Vec<Cluster> = Vec::new();
        core::mem::swap(&mut work, &mut self.clusters);
        let merged = match &self.final_positions {
            Some(positions) => merge_pass(work, positions, dist, mf, md),
            None => work,
        };
        self.clusters = merged;
    }

    /// The unassigned point of least fuzz — the most confidently
    /// converged candidate to found the next cluster on.
    pub fn best_cluster_candidate(&self, available: &Vec<bool>) -> (r: Option<usize>)
        requires
            self.fitted(),
            available@.len() == self.fuzz@.len(),
        ensures
            r is None <==> (forall|i: int| 0 <= i < available@.len() ==> available@[i]),
            match r {
                Some(p) => {
                    &&& p < available@.len()
                    &&& !available@[p as int]
                    &&& forall|q: int|
                        0 <= q < available@.len() && !available@[q] ==> (self.fuzz@[p as int]
                            < self.fuzz@[q] || (self.fuzz@[p as int] == self.fuzz@[q] && p
                            <= q))
                },
                None => true,
            },
    {
        best_candidate(&self.fuzz, available)
    }

    /// Labels each point with the id of the cluster that holds it, zero
    /// for a point no cluster holds.
    ///
    /// Runs cluster formation first if no clusters exist yet; an existing
    /// cluster list is reused unchanged, so a second call on the same fit
    /// output reads the same clusters and — labels being a function of
    /// the cluster list alone (`lemma_labels_determined`) — returns
    /// identical labels.  Every label is at most the realized cluster
    /// count.  Asking for a prediction before any fit is refused.
    pub fn fuzzy_predict(&mut self) -> (r: Result<Vec<usize>, GravityError>)
        requires
            old(self).base_wf(),
            old(self).fit_state_ok(),
            old(self).clusters_ok(),
        ensures
            final(self).gravity_points == old(self).gravity_points,
            final(self).parameters == old(self).parameters,
            final(self).final_positions == old(self).final_positions,
            final(self).fuzz == old(self).fuzz,
            final(self).base_wf(),
            final(self).clusters_ok(),
            !old(self).fitted() ==> r == Err::<Vec<usize>, GravityError>(
                GravityError::NotFitted,
            ) && *final(self) == *old(self),
            old(self).fitted() ==> {
                &&& r is Ok
                &&& final(self).fitted()
                &&& (old(self).clusters@.len() > 0 ==> final(self).clusters == old(
                    self,
                ).clusters)
                &&& labels_match(
                    final(self).clusters@,
                    old(self).gravity_points.rows as int,
                    r.unwrap()@,
                )
                &&& forall|p: int|
                    0 <= p < old(self).gravity_points.rows ==> #[trigger] r.unwrap()@[p]
                        <= final(self).clusters@.len()
                &&& forall|p: int|
                    0 <= p < old(self).gravity_points.rows ==> ((#[trigger] r.unwrap()@[p]
                        == 0) <==> !point_in(final(self).clusters@, p as usize))
                &&& (old(self).clusters@.len() == 0 && old(self).gravity_points.rows > 0
                    ==> final(self).clusters@.len() > 0
                    && final(self).clusters@[0].members@.len() > 0 && is_min_fuzz(
                    old(self).fuzz@,
                    final(self).clusters@[0].members@[0],
                ))
                &&& (old(self).clusters@.len() == 0 && old(self).degenerate_fit() && old(
                    self,
                ).gravity_points.rows > 0 ==> final(self).clusters@.len() == 1 && (forall|
                    p: int,
                |
                    0 <= p < old(self).gravity_points.rows ==> r.unwrap()@[p] == 1))
            },
    {
        if self.final_positions.is_none() {
            return Err(GravityError::NotFitted);
        }
        let ghost was_empty = self.clusters@.len() == 0;
        if self.clusters.len() == 0 {
            self.cluster_points();
        }
        let n = self.gravity_points.n_rows();
        proof {
            let m = self.final_positions.unwrap();
            assert forall|a: int, t: int|
                #![trigger self.clusters@[a].members@[t]]
                0 <= a < self.clusters@.len() && 0 <= t < self.clusters@[
                    a
                ].members@.len() implies self.clusters@[a].members@[t] < n by {
                assert(cluster_wf(self.clusters@[a], m, self.parameters.distance));
            }
        }
        let labels = emit_labels(&self.clusters, n);
        proof {
            if was_empty && old(self).degenerate_fit() && n > 0 {
                assert forall|p: int| 0 <= p < n implies labels@[p] == 1 by {
                    assert(point_in(self.clusters@, p as usize));
                    let (a, t) = choose|a: int, t: int|
                        0 <= a < self.clusters@.len() && 0 <= t < self.clusters@[
                            a
                        ].members@.len() && #[trigger] self.clusters@[a].members@[t]
                            == p as usize;
                    assert(labels@[p] == self.clusters@[a].id);
                }
            }
        }
        Ok(labels)
    }

    /// Labels each point after full clustering: cluster formation and
    /// cluster merging both run when no clusters exist yet; an existing
    /// cluster list is reused unchanged, as in `fuzzy_predict`.  After a
    /// fresh clustering every point is labeled with a nonzero id.
    pub fn predict(&mut self) -> (r: Result<Vec<usize>, GravityError>)
        requires
            old(self).base_wf(),
            old(self).fit_state_ok(),
            old(self).clusters_ok(),
        ensures
            final(self).gravity_points == old(self).gravity_points,
            final(self).parameters == old(self).parameters,
            final(self).final_positions == old(self).final_positions,
            final(self).fuzz == old(self).fuzz,
            final(self).base_wf(),
            final(self).clusters_ok(),
            !old(self).fitted() ==> r == Err::<Vec<usize>, GravityError>(
                GravityError::NotFitted,
            ) && *final(self) == *old(self),
            old(self).fitted() ==> {
                &&& r is Ok
                &&& final(self).fitted()
                &&& (old(self).clusters@.len() > 0 ==> final(self).clusters == old(
                    self,
                ).clusters)
                &&& labels_match(
                    final(self).clusters@,
                    old(self).gravity_points.rows as int,
                    r.unwrap()@,
                )
                &&& forall|p: int|
                    0 <= p < old(self).gravity_points.rows ==> #[trigger] r.unwrap()@[p]
                        <= final(self).clusters@.len()
                &&& forall|p: int|
                    0 <= p < old(self).gravity_points.rows ==> ((#[trigger] r.unwrap()@[p]
                        == 0) <==> !point_in(final(self).clusters@, p as usize))
                &&& (old(self).clusters@.len() == 0 ==> forall|p: usize|
                    p < old(self).gravity_points.rows ==> #[trigger] point_in(
                        final(self).clusters@,
                        p,
                    ))
                &&& (old(self).clusters@.len() == 0 && old(self).gravity_points.rows > 0
                    ==> final(self).clusters@.len() > 0
                    && final(self).clusters@[0].members@.len() > 0 && is_min_fuzz(
                    old(self).fuzz@,
                    final(self).clusters@[0].members@[0],
                ))
                &&& (old(self).clusters@.len() == 0 ==> merge_fixpoint(
                    final(self).clusters@,
                    old(self).gravity_points.cols as int,
                    old(self).parameters.distance,
                    old(self).parameters.merge_factor as int,
                    old(self).parameters.merge_distance as int,
                ))
                &&& (old(self).clusters@.len() == 0 && old(self).degenerate_fit() && old(
                    self,
                ).gravity_points.rows > 0 ==> final(self).clusters@.len() == 1 && (forall|
                    p: int,
                |
                    0 <= p < old(self).gravity_points.rows ==> r.unwrap()@[p] == 1))
            },
    {
        if self.final_positions.is_none() {
            return Err(GravityError::NotFitted);
        }
        let ghost was_empty = self.clusters@.len() == 0;
        if self.clusters.len() == 0 {
            self.cluster_points();
            self.merge_clusters();
        }
        let n = self.gravity_points.n_rows();
        proof {
            let m = self.final_positions.unwrap();
            assert forall|a: int, t: int|
                #![trigger self.clusters@[a].members@[t]]
                0 <= a < self.clusters@.len() && 0 <= t < self.clusters@[
                    a
                ].members@.len() implies self.clusters@[a].members@[t] < n by {
                assert(cluster_wf(self.clusters@[a], m, self.parameters.distance));
            }
        }
        let labels = emit_labels(&self.clusters, n);
        proof {
            if was_empty && old(self).degenerate_fit() && n > 0 {
                assert forall|p: int| 0 <= p < n implies labels@[p] == 1 by {
                    assert(point_in(self.clusters@, p as usize));
                    let (a, t) = choose|a: int, t: int|
                        0 <= a < self.clusters@.len() && 0 <= t < self.clusters@[
                            a
                        ].members@.len() && #[trigger] self.clusters@[a].members@[t]
                            == p as usize;
                    assert(labels@[p] == self.clusters@[a].id);
                }
            }
        }
        Ok(labels)
    }
}

} // verus!
