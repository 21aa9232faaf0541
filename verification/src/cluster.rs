//! The cluster entity: a set of point indices over a position matrix,
//! with an exactly maintained centroid and radius.
//!
//! The centroid is carried as its exact numerator — the coordinate-wise
//! sum of the member rows — beside the member count, so no rounding ever
//! enters the running mean: dividing the maintained sum by the weight *is*
//! recomputing the mean of the members directly.

use vstd::prelude::*;

verus! {

use crate::{COORD_MAX, DIST_MAX, ROWS_MAX};
use crate::matrix::Matrix;
use crate::metric::{
    Distance, bounded_seq, spec_measure, div_trunc, div_trunc_i64, lemma_div_trunc_bound,
    lemma_div_trunc_one, lemma_measure_self_zero, lemma_measure_range,
};
use crate::pathfinder::sum_sel;

#[derive(Clone)]
pub struct Cluster {
    /// Identity, stable while the cluster lives.
    pub id: usize,
    /// Member count.
    pub weight: usize,
    /// Coordinate-wise sum of the member rows: the exact centroid
    /// numerator.
    pub sum: Vec<i64>,
    /// The indices of the member points.
    pub members: Vec<usize>,
    /// Mean distance of the members to the centroid, rounded toward zero.
    pub radius: i64,
}

/// The member indices as mathematical integers.
pub open spec fn mem_sel(c: Cluster) -> Seq<int> {
    c.members@.map_values(|v: usize| v as int)
}

/// The centroid: the maintained sum divided by the weight, coordinate by
/// coordinate.
pub open spec fn spec_center(c: Cluster, cols: int) -> Seq<i64> {
    Seq::new(cols as nat, |j: int| div_trunc(c.sum@[j] as int, c.weight as int) as i64)
}

/// Sum over `t < n` of the distances from the member rows to `center`.
pub open spec fn radius_sum(m: Matrix, mem: Seq<int>, center: Seq<i64>, dist: Distance, n: int) -> int
    decreases n,
{
    if n <= 0 {
        0
    } else {
        radius_sum(m, mem, center, dist, n - 1) + spec_measure(
            dist,
            m.row_seq(mem[n - 1]),
            center,
        )
    }
}

/// The exact radius: the mean distance of the members to the centroid,
/// rounded toward zero.
pub open spec fn spec_radius(c: Cluster, m: Matrix, dist: Distance) -> int {
    div_trunc(
        radius_sum(m, mem_sel(c), spec_center(c, m.cols as int), dist, c.weight as int),
        c.weight as int,
    )
}

/// The cluster invariant over its position matrix and measure.
pub open spec fn cluster_wf(c: Cluster, m: Matrix, dist: Distance) -> bool {
    &&& 1 <= c.weight <= ROWS_MAX
    &&& c.weight == c.members@.len()
    &&& forall|t: int| 0 <= t < c.members@.len() ==> (#[trigger] c.members@[t]) < m.rows
    &&& c.sum@.len() == m.cols
    &&& forall|j: int|
        0 <= j < m.cols ==> (#[trigger] c.sum@[j]) as int == sum_sel(
            m,
            mem_sel(c),
            j,
            c.weight as int,
        )
    &&& forall|j: int|
        0 <= j < m.cols ==> -((c.weight as int) * COORD_MAX) <= (#[trigger] c.sum@[j]) as int
            <= (c.weight as int) * COORD_MAX
    &&& 0 <= c.radius <= DIST_MAX
    &&& c.radius == spec_radius(c, m, dist)
}

/// The summed entries of valid rows stay within `t * COORD_MAX`.
pub proof fn lemma_sum_sel_bound(m: Matrix, sel: Seq<int>, j: int, t: int)
    requires
        m.wf(),
        0 <= j < m.cols,
        0 <= t <= sel.len(),
        forall|u: int| 0 <= u < sel.len() ==> 0 <= #[trigger] sel[u] < m.rows,
    ensures
        -(t * COORD_MAX) <= sum_sel(m, sel, j, t) <= t * COORD_MAX,
    decreases t,
{
    if t > 0 {
        lemma_sum_sel_bound(m, sel, j, t - 1);
        m.lemma_row_valid(sel[t - 1]);
        assert(m.row_seq(sel[t - 1])[j] == m.entry(sel[t - 1], j));
    }
}

/// The radius summands stay within `t * DIST_MAX`.
proof fn lemma_radius_sum_bound(m: Matrix, mem: Seq<int>, center: Seq<i64>, dist: Distance, n: int)
    requires
        m.wf(),
        0 <= n <= mem.len(),
        forall|u: int| 0 <= u < mem.len() ==> 0 <= #[trigger] mem[u] < m.rows,
        center.len() == m.cols,
        bounded_seq(center),
    ensures
        0 <= radius_sum(m, mem, center, dist, n) <= n * DIST_MAX,
    decreases n,
{
    if n > 0 {
        lemma_radius_sum_bound(m, mem, center, dist, n - 1);
        m.lemma_row_valid(mem[n - 1]);
        lemma_measure_range(dist, m.row_seq(mem[n - 1]), center);
    }
}

/// Centroid exactness: under the cluster invariant, the maintained sum
/// over each coordinate equals the sum of the current members' rows
/// recomputed directly, so the centroid read through `center` is the
/// exact mean of the members (numerator and denominator both exact).
pub proof fn lemma_centroid_exact(c: Cluster, m: Matrix, dist: Distance)
    requires
        m.wf(),
        cluster_wf(c, m, dist),
    ensures
        forall|j: int|
            0 <= j < m.cols ==> (#[trigger] c.sum@[j]) as int == sum_sel(
                m,
                mem_sel(c),
                j,
                c.members@.len() as int,
            ),
        forall|j: int|
            0 <= j < m.cols ==> #[trigger] spec_center(c, m.cols as int)[j] as int == div_trunc(
                sum_sel(m, mem_sel(c), j, c.members@.len() as int),
                c.weight as int,
            ),
{
    assert forall|j: int| 0 <= j < m.cols implies #[trigger] spec_center(c, m.cols as int)[
        j
    ] as int == div_trunc(sum_sel(m, mem_sel(c), j, c.members@.len() as int), c.weight as int) by {
        lemma_sum_sel_bound(m, mem_sel(c), j, c.weight as int);
        assert((c.weight as int) * COORD_MAX <= 1_048_576 * 1_048_576int) by (nonlinear_arith)
            requires
                0 <= c.weight as int <= 1_048_576,
                COORD_MAX == 1_048_576,
        ;
        lemma_div_trunc_bound(c.sum@[j] as int, c.weight as int, COORD_MAX as int);
    }
}

impl Cluster {
    /// The centroid as a vector: each maintained sum divided by the
    /// weight.
    #[verifier::loop_isolation(false)]
    pub fn center(&self, positions: &Matrix, dist: Distance) -> (r: Vec<i64>)
        requires
            positions.wf(),
            cluster_wf(*self, *positions, dist),
        ensures
            r@ == spec_center(*self, positions.cols as int),
            r@.len() == positions.cols,
            bounded_seq(r@),
    {
        let mut out: Vec<i64> = Vec::new();
        let cols = positions.n_cols();
        for j in 0..cols
            invariant
                cols == positions.cols,
                positions.wf(),
                cluster_wf(*self, *positions, dist),
                out@.len() == j,
                forall|u: int|
                    0 <= u < j ==> #[trigger] out@[u] == spec_center(
                        *self,
                        positions.cols as int,
                    )[u],
                forall|u: int| 0 <= u < j ==> -COORD_MAX <= #[trigger] out@[u] <= COORD_MAX,
        {
            proof {
                assert((self.weight as int) * COORD_MAX <= 1_048_576 * 1_048_576int)
                    by (nonlinear_arith)
                    requires
                        0 <= self.weight as int <= 1_048_576,
                        COORD_MAX == 1_048_576,
                ;
                lemma_div_trunc_bound(self.sum@[j as int] as int, self.weight as int, COORD_MAX as int);
            }
            let v = div_trunc_i64(self.sum[j], self.weight as i64);
            out.push(v);
        }
        proof {
            assert(out@ =~= spec_center(*self, positions.cols as int));
        }
        out
    }

    /// The maintained radius.
    pub fn radius(&self) -> (r: i64)
        ensures
            r == self.radius,
    {
        self.radius
    }

    /// Recomputes the exact radius over the current members.
    #[verifier::loop_isolation(false)]
    fn recompute_radius(&mut self, positions: &Matrix, dist: Distance)
        requires
            positions.wf(),
            1 <= old(self).weight <= ROWS_MAX,
            old(self).weight == old(self).members@.len(),
            forall|t: int|
                0 <= t < old(self).members@.len() ==> (#[trigger] old(self).members@[t])
                    < positions.rows,
            old(self).sum@.len() == positions.cols,
            forall|j: int|
                0 <= j < positions.cols ==> (#[trigger] old(self).sum@[j]) as int == sum_sel(
                    *positions,
                    mem_sel(*old(self)),
                    j,
                    old(self).weight as int,
                ),
            forall|j: int|
                0 <= j < positions.cols ==> -((old(self).weight as int) * COORD_MAX) <= (
                #[trigger] old(self).sum@[j]) as int <= (old(self).weight as int) * COORD_MAX,
        ensures
            final(self).id == old(self).id,
            final(self).weight == old(self).weight,
            final(self).sum == old(self).sum,
            final(self).members == old(self).members,
            cluster_wf(*final(self), *positions, dist),
    {
        let center = self.center_unchecked(positions);
        let mut acc: i64 = 0;
        let k = self.members.len();
        let ghost mem = mem_sel(*self);
        for t in 0..k
            invariant
                positions.wf(),
                k == self.members@.len(),
                k <= ROWS_MAX,
                mem == mem_sel(*self),
                forall|u: int|
                    0 <= u < self.members@.len() ==> (#[trigger] self.members@[u])
                        < positions.rows,
                center@.len() == positions.cols,
                bounded_seq(center@),
                acc == radius_sum(*positions, mem, center@, dist, t as int),
                0 <= acc <= (t as int) * DIST_MAX,
        {
            let row = positions.row(self.members[t]);
            proof {
                positions.lemma_row_valid(self.members@[t as int] as int);
                lemma_measure_range(dist, row@, center@);
                assert((t as int) * DIST_MAX + DIST_MAX == (t as int + 1) * DIST_MAX)
                    by (nonlinear_arith);
                assert((t as int + 1) * DIST_MAX <= 2_251_799_813_685_248_000int)
                    by (nonlinear_arith)
                    requires
                        0 <= t as int + 1 <= 1_048_576,
                        DIST_MAX == 2_147_483_648,
                ;
            }
            let d = dist.measure(&row, &center);
            acc = acc + d;
        }
        proof {
            assert((k as int) * DIST_MAX <= 2_251_799_813_685_248_000int) by (nonlinear_arith)
                requires
                    0 <= k as int <= 1_048_576,
                    DIST_MAX == 2_147_483_648,
            ;
            lemma_radius_sum_bound(*positions, mem, center@, dist, k as int);
            lemma_div_trunc_bound(acc as int, k as int, DIST_MAX as int);
        }
        let r = div_trunc_i64(acc, k as i64);
        self.radius = r;
        proof {
            vstd::arithmetic::div_mod::lemma_div_of0(k as int);
            lemma_radius_sum_bound(*positions, mem, center@, dist, k as int);
            lemma_div_trunc_bound(acc as int, k as int, DIST_MAX as int);
            assert(center@ =~= spec_center(*self, positions.cols as int));
        }
    }

    /// The centroid while the radius field is still being recomputed;
    /// shares the arithmetic of `center`.
    #[verifier::loop_isolation(false)]
    fn center_unchecked(&self, positions: &Matrix) -> (r: Vec<i64>)
        requires
            positions.wf(),
            1 <= self.weight <= ROWS_MAX,
            self.sum@.len() == positions.cols,
            forall|j: int|
                0 <= j < positions.cols ==> -((self.weight as int) * COORD_MAX) <= (
                #[trigger] self.sum@[j]) as int <= (self.weight as int) * COORD_MAX,
        ensures
            r@ == spec_center(*self, positions.cols as int),
            r@.len() == positions.cols,
            bounded_seq(r@),
    {
        let mut out: Vec<i64> = Vec::new();
        let cols = positions.n_cols();
        for j in 0..cols
            invariant
                cols == positions.cols,
                positions.wf(),
                1 <= self.weight <= ROWS_MAX,
                self.sum@.len() == positions.cols,
                forall|u: int|
                    0 <= u < positions.cols ==> -((self.weight as int) * COORD_MAX) <= (
                    #[trigger] self.sum@[u]) as int <= (self.weight as int) * COORD_MAX,
                out@.len() == j,
                forall|u: int|
                    0 <= u < j ==> #[trigger] out@[u] == spec_center(
                        *self,
                        positions.cols as int,
                    )[u],
                forall|u: int| 0 <= u < j ==> -COORD_MAX <= #[trigger] out@[u] <= COORD_MAX,
        {
            proof {
                assert((self.weight as int) * COORD_MAX <= 1_048_576 * 1_048_576int)
                    by (nonlinear_arith)
                    requires
                        0 <= self.weight as int <= 1_048_576,
                        COORD_MAX == 1_048_576,
                ;
                lemma_div_trunc_bound(self.sum@[j as int] as int, self.weight as int, COORD_MAX as int);
            }
            let v = div_trunc_i64(self.sum[j], self.weight as i64);
            out.push(v);
        }
        proof {
            assert(out@ =~= spec_center(*self, positions.cols as int));
        }
        out
    }

    /// Founds a singleton cluster on one point: weight one, centroid the
    /// point itself, radius zero.
    pub fn init(id: usize, positions: &Matrix, point_id: usize, dist: Distance) -> (r: Cluster)
        requires
            positions.wf(),
            point_id < positions.rows,
        ensures
            cluster_wf(r, *positions, dist),
            r.id == id,
            r.weight == 1,
            r.members@ == seq![point_id],
            r.radius == 0,
            r.sum@ == positions.row_seq(point_id as int),
    {
        proof {
            positions.lemma_row_valid(point_id as int);
        }
        let sum = positions.row(point_id);
        let mut members: Vec<usize> = Vec::new();
        members.push(point_id);
        let c = Cluster { id, weight: 1, sum, members, radius: 0 };
        proof {
            assert(c.members@ =~= seq![point_id]);
            let mem = mem_sel(c);
            assert(mem.len() == 1 && mem[0] == point_id as int);
            assert forall|j: int| 0 <= j < positions.cols implies (#[trigger] c.sum@[j]) as int
                == sum_sel(*positions, mem, j, 1) by {
                assert(sum_sel(*positions, mem, j, 0) == 0);
                assert(sum_sel(*positions, mem, j, 1) == positions.entry(point_id as int, j));
            }
            let center = spec_center(c, positions.cols as int);
            assert forall|j: int| 0 <= j < positions.cols implies center[j]
                == positions.row_seq(point_id as int)[j] by {
                lemma_div_trunc_one(c.sum@[j] as int);
            }
            assert(center =~= positions.row_seq(point_id as int));
            lemma_measure_self_zero(dist, center);
            assert(radius_sum(*positions, mem, center, dist, 0) == 0);
            assert(radius_sum(*positions, mem, center, dist, 1) == spec_measure(
                dist,
                positions.row_seq(point_id as int),
                center,
            ));
            lemma_div_trunc_one(0);
        }
        c
    }

    /// Absorbs one point: the centroid numerator grows by the point's
    /// row, the weight by one, and the radius is recomputed exactly over
    /// the new membership.  Returns the cluster's id, unchanged.
    #[verifier::loop_isolation(false)]
    pub fn merge_point(&mut self, positions: &Matrix, point_id: usize, dist: Distance) -> (r:
        usize)
        requires
            positions.wf(),
            cluster_wf(*old(self), *positions, dist),
            point_id < positions.rows,
            old(self).weight < ROWS_MAX,
        ensures
            r == old(self).id,
            final(self).id == old(self).id,
            final(self).weight == old(self).weight + 1,
            final(self).members@ == old(self).members@.push(point_id),
            forall|j: int|
                0 <= j < positions.cols ==> (#[trigger] final(self).sum@[j]) as int == old(
                    self,
                ).sum@[j] + positions.entry(point_id as int, j),
            cluster_wf(*final(self), *positions, dist),
    {
        let cols = self.sum.len();
        proof {
            positions.lemma_row_valid(point_id as int);
        }
        let row = positions.row(point_id);
        for j in 0..cols
            invariant
                cols == positions.cols,
                positions.wf(),
                self.id == old(self).id,
                self.weight == old(self).weight,
                self.members == old(self).members,
                self.radius == old(self).radius,
                1 <= self.weight <= ROWS_MAX,
                self.sum@.len() == cols,
                row@ == positions.row_seq(point_id as int),
                forall|u: int|
                    0 <= u < j ==> (#[trigger] self.sum@[u]) as int == old(self).sum@[u]
                        + positions.entry(point_id as int, u),
                forall|u: int| j <= u < cols ==> #[trigger] self.sum@[u] == old(self).sum@[u],
                forall|u: int|
                    0 <= u < cols ==> -((self.weight as int + 1) * COORD_MAX) <= (
                    #[trigger] self.sum@[u]) as int <= (self.weight as int + 1) * COORD_MAX,
        {
            proof {
                assert(-((self.weight as int) * COORD_MAX) <= old(self).sum@[j as int]
                    <= (self.weight as int) * COORD_MAX);
                assert((self.weight as int) * COORD_MAX + COORD_MAX == (self.weight as int + 1)
                    * COORD_MAX) by (nonlinear_arith);
                assert((self.weight as int + 1) * COORD_MAX <= 1_099_512_676_352int)
                    by (nonlinear_arith)
                    requires
                        0 <= self.weight as int + 1 <= 1_048_577,
                        COORD_MAX == 1_048_576,
                ;
            }
            let v = self.sum[j] + row[j];
            self.sum[j] = v;
        }
        self.members.push(point_id);
        self.weight = self.weight + 1;
        proof {
            let mem_new = mem_sel(*self);
            let ghost mem_old = mem_sel(*old(self));
            assert(mem_new =~= mem_old.push(point_id as int));
            assert forall|j: int| 0 <= j < positions.cols implies (#[trigger] self.sum@[j]) as int
                == sum_sel(*positions, mem_new, j, self.weight as int) by {
                lemma_sum_sel_prefix(*positions, mem_old, mem_new, j, old(self).weight as int);
                assert(sum_sel(*positions, mem_new, j, self.weight as int) == sum_sel(
                    *positions,
                    mem_new,
                    j,
                    old(self).weight as int,
                ) + positions.entry(mem_new[old(self).weight as int], j));
            }
        }
        self.recompute_radius(positions, dist);
        self.id
    }

    /// Absorbs a whole cluster: weights add, centroid numerators add —
    /// which makes the merged centroid exactly the weight-weighted
    /// average of the two centroids — members concatenate, the receiving
    /// id is kept, and the radius is recomputed exactly over the union.
    #[verifier::loop_isolation(false)]
    pub fn merge_cluster(&self, other: &Cluster, positions: &Matrix, dist: Distance) -> (r:
        Cluster)
        requires
            positions.wf(),
            cluster_wf(*self, *positions, dist),
            cluster_wf(*other, *positions, dist),
            self.weight + other.weight <= ROWS_MAX,
        ensures
            cluster_wf(r, *positions, dist),
            r.id == self.id,
            r.weight == self.weight + other.weight,
            r.members@ == self.members@ + other.members@,
            forall|j: int|
                0 <= j < positions.cols ==> (#[trigger] r.sum@[j]) as int == self.sum@[j]
                    + other.sum@[j],
    {
        let cols = self.sum.len();
        let mut sum: Vec<i64> = Vec::new();
        for j in 0..cols
            invariant
                cols == positions.cols,
                sum@.len() == j,
                forall|u: int|
                    0 <= u < j ==> (#[trigger] sum@[u]) as int == self.sum@[u] + other.sum@[u],
                forall|u: int|
                    0 <= u < j ==> -(((self.weight + other.weight) as int) * COORD_MAX) <= (
                    #[trigger] sum@[u]) as int <= ((self.weight + other.weight) as int)
                        * COORD_MAX,
        {
            proof {
                assert((self.weight as int) * COORD_MAX + (other.weight as int) * COORD_MAX == ((
                self.weight + other.weight) as int) * COORD_MAX) by (nonlinear_arith);
                assert(((self.weight + other.weight) as int) * COORD_MAX
                    <= 1_099_511_627_776_000_000int) by (nonlinear_arith)
                    requires
                        0 <= (self.weight + other.weight) as int <= 1_048_576,
                        COORD_MAX == 1_048_576,
                ;
            }
            sum.push(self.sum[j] + other.sum[j]);
        }
        let mut members: Vec<usize> = Vec::new();
        let ka = self.members.len();
        for t in 0..ka
            invariant
                ka == self.members@.len(),
                members@.len() == t,
                forall|u: int| 0 <= u < t ==> #[trigger] members@[u] == self.members@[u],
        {
            members.push(self.members[t]);
        }
        let kb = other.members.len();
        for t in 0..kb
            invariant
                kb == other.members@.len(),
                members@.len() == ka + t,
                forall|u: int| 0 <= u < ka ==> #[trigger] members@[u] == self.members@[u],
                forall|u: int|
                    ka <= u < ka + t ==> #[trigger] members@[u] == other.members@[u - ka],
        {
            members.push(other.members[t]);
        }
        proof {
            assert(members@ =~= self.members@ + other.members@);
        }
        let mut merged = Cluster {
            id: self.id,
            weight: self.weight + other.weight,
            sum,
            members,
            radius: 0,
        };
        proof {
            let mem = mem_sel(merged);
            let ghost mem_a = mem_sel(*self);
            let ghost mem_b = mem_sel(*other);
            assert(mem =~= mem_a + mem_b);
            assert forall|j: int| 0 <= j < positions.cols implies (#[trigger] merged.sum@[
            j]) as int == sum_sel(*positions, mem, j, merged.weight as int) by {
                lemma_sum_sel_concat(
                    *positions,
                    mem_a,
                    mem_b,
                    mem,
                    j,
                    self.weight as int,
                    other.weight as int,
                );
            }
        }
        merged.recompute_radius(positions, dist);
        merged
    }
}

/// Extending the index sequence beyond `t` does not change the first `t`
/// summands.
proof fn lemma_sum_sel_prefix(m: Matrix, a: Seq<int>, b: Seq<int>, j: int, t: int)
    requires
        0 <= t <= a.len(),
        a.len() <= b.len(),
        forall|u: int| 0 <= u < t ==> a[u] == b[u],
    ensures
        sum_sel(m, a, j, t) == sum_sel(m, b, j, t),
    decreases t,
{
    if t > 0 {
        lemma_sum_sel_prefix(m, a, b, j, t - 1);
    }
}

/// Summing over a concatenation splits into the two parts.
proof fn lemma_sum_sel_concat(m: Matrix, a: Seq<int>, b: Seq<int>, c: Seq<int>, j: int, ka: int, kb: int)
    requires
        0 <= ka == a.len(),
        0 <= kb <= b.len(),
        c == a + b,
    ensures
        sum_sel(m, c, j, ka + kb) == sum_sel(m, a, j, ka) + sum_sel(m, b, j, kb),
    decreases kb,
{
    if kb == 0 {
        lemma_sum_sel_prefix(m, a, c, j, ka);
    } else {
        lemma_sum_sel_concat(m, a, b, c, j, ka, kb - 1);
        assert(c[ka + kb - 1] == b[kb - 1]);
    }
}

} // verus!
