//! Assigning points to their nearest center, recomputing centers as means,
//! and the loop that alternates the two until the centers settle.
use vstd::prelude::*;

use crate::geometry::{
    is_strictly_closer, same_place, same_position, strictly_closer, valid_centroid,
    valid_centroids, valid_point, valid_points, Centroid, Point, MAX_COORD, MAX_POINTS,
};
use crate::theorems::{lemma_assignment_partitions, pooled};

verus! {

/// Why a clustering call was refused.
#[derive(Clone, Copy, Debug, PartialEq, Eq, Structural)]
pub enum ClusterError {
    /// `k` was zero or larger than the number of points.
    InvalidClusterCount,
}

/// Index of the nearest of the first `n` centers, scanning left to right and
/// keeping the earlier center on a tie.
pub open spec fn nearest_upto(p: Point, cs: Seq<Centroid>, n: int) -> int
    decreases n,
{
    if n <= 1 {
        0
    } else {
        let best = nearest_upto(p, cs, n - 1);
        if strictly_closer(p, cs[n - 1], cs[best]) {
            n - 1
        } else {
            best
        }
    }
}

/// Index of the center nearest to `p`; among equally near centers, the lowest.
pub open spec fn nearest(p: Point, cs: Seq<Centroid>) -> int {
    nearest_upto(p, cs, cs.len() as int)
}

/// The points of `ps`, in their order, whose nearest center is center `i`.
pub open spec fn members(ps: Seq<Point>, cs: Seq<Centroid>, i: int) -> Seq<Point>
    decreases ps.len(),
{
    if ps.len() == 0 {
        Seq::empty()
    } else {
        let rest = members(ps.drop_last(), cs, i);
        if nearest(ps.last(), cs) == i {
            rest.push(ps.last())
        } else {
            rest
        }
    }
}

/// One group per center, each holding the points nearest to it.
pub open spec fn assignment(ps: Seq<Point>, cs: Seq<Centroid>) -> Seq<Seq<Point>> {
    Seq::new(cs.len(), |i: int| members(ps, cs, i))
}

pub open spec fn sum_x(s: Seq<Point>) -> int
    decreases s.len(),
{
    if s.len() == 0 {
        0
    } else {
        sum_x(s.drop_last()) + s.last().x
    }
}

pub open spec fn sum_y(s: Seq<Point>) -> int
    decreases s.len(),
{
    if s.len() == 0 {
        0
    } else {
        sum_y(s.drop_last()) + s.last().y
    }
}

/// The exact mean of a group of points.
pub open spec fn mean_of(s: Seq<Point>) -> Centroid {
    Centroid { sum: Point { x: sum_x(s) as i64, y: sum_y(s) as i64 }, count: s.len() as u64 }
}

/// New centers from groups: the mean of each non-empty group; an empty group
/// keeps its previous center.
pub open spec fn recomputed(groups: Seq<Seq<Point>>, previous: Seq<Centroid>) -> Seq<Centroid> {
    Seq::new(
        previous.len(),
        |i: int|
            if groups[i].len() == 0 {
                previous[i]
            } else {
                mean_of(groups[i])
            },
    )
}

/// One round of Lloyd's algorithm: assign, then recompute.
pub open spec fn lloyd_step(ps: Seq<Point>, cs: Seq<Centroid>) -> Seq<Centroid> {
    recomputed(assignment(ps, cs), cs)
}

/// Two center sequences that agree position by position.
pub open spec fn same_positions(a: Seq<Centroid>, b: Seq<Centroid>) -> bool {
    a.len() == b.len() && forall|i: int| 0 <= i < a.len() ==> same_position(#[trigger] a[i], b[i])
}

/// The centers reached from `cs` by at most `fuel` rounds, stopping at the
/// first round that leaves every center where it was.
pub open spec fn converge(ps: Seq<Point>, cs: Seq<Centroid>, fuel: nat) -> Seq<Centroid>
    decreases fuel,
{
    if fuel == 0 {
        cs
    } else {
        let next = lloyd_step(ps, cs);
        if same_positions(next, cs) {
            cs
        } else {
            converge(ps, next, (fuel - 1) as nat)
        }
    }
}

pub open spec fn groups_view(v: Seq<Vec<Point>>) -> Seq<Seq<Point>> {
    v.map_values(|g: Vec<Point>| g@)
}

pub(crate) proof fn lemma_nearest_upto_range(p: Point, cs: Seq<Centroid>, n: int)
    requires
        1 <= n,
    ensures
        0 <= nearest_upto(p, cs, n) < n,
    decreases n,
{
    if n > 1 {
        lemma_nearest_upto_range(p, cs, n - 1);
    }
}

pub(crate) proof fn lemma_nearest_range(p: Point, cs: Seq<Centroid>)
    requires
        cs.len() >= 1,
    ensures
        0 <= nearest(p, cs) < cs.len(),
{
    lemma_nearest_upto_range(p, cs, cs.len() as int);
}

/// Each group holds only points of `ps`, and no more of them than `ps` has.
pub(crate) proof fn lemma_members_valid(ps: Seq<Point>, cs: Seq<Centroid>, i: int)
    requires
        valid_points(ps),
    ensures
        members(ps, cs, i).len() <= ps.len(),
        valid_points(members(ps, cs, i)),
    decreases ps.len(),
{
    if ps.len() > 0 {
        let rest = ps.drop_last();
        assert forall|j: int| 0 <= j < rest.len() implies valid_point(#[trigger] rest[j]) by {
            assert(rest[j] == ps[j]);
        }
        lemma_members_valid(rest, cs, i);
        assert(valid_point(ps[ps.len() - 1]));
    }
}

proof fn lemma_sum_bound(s: Seq<Point>)
    requires
        forall|j: int| 0 <= j < s.len() ==> valid_point(#[trigger] s[j]),
    ensures
        -(s.len() * MAX_COORD) <= sum_x(s) <= s.len() * MAX_COORD,
        -(s.len() * MAX_COORD) <= sum_y(s) <= s.len() * MAX_COORD,
    decreases s.len(),
{
    if s.len() > 0 {
        let rest = s.drop_last();
        assert forall|j: int| 0 <= j < rest.len() implies valid_point(#[trigger] rest[j]) by {
            assert(rest[j] == s[j]);
        }
        lemma_sum_bound(rest);
        assert(valid_point(s[s.len() - 1]));
    }
}

/// The mean of a non-empty group of valid points is a valid center.
pub(crate) proof fn lemma_mean_valid(s: Seq<Point>)
    requires
        1 <= s.len(),
        valid_points(s),
    ensures
        valid_centroid(mean_of(s)),
        mean_of(s).sum.x == sum_x(s),
        mean_of(s).sum.y == sum_y(s),
        mean_of(s).count == s.len(),
{
    lemma_sum_bound(s);
    assert(s.len() * MAX_COORD <= MAX_POINTS * MAX_COORD);
}

/// A round of Lloyd's algorithm keeps the number of centers and their validity.
pub proof fn lemma_step_valid(ps: Seq<Point>, cs: Seq<Centroid>)
    requires
        valid_points(ps),
        valid_centroids(cs),
    ensures
        lloyd_step(ps, cs).len() == cs.len(),
        valid_centroids(lloyd_step(ps, cs)),
{
    let next = lloyd_step(ps, cs);
    assert forall|i: int| 0 <= i < next.len() implies valid_centroid(#[trigger] next[i]) by {
        lemma_members_valid(ps, cs, i);
        if members(ps, cs, i).len() > 0 {
            lemma_mean_valid(members(ps, cs, i));
        }
    }
}

/// Index of the center nearest to `p`, the lowest one on a tie.
pub fn nearest_index(p: &Point, centroids: &[Centroid]) -> (r: usize)
    requires
        valid_point(*p),
        valid_centroids(centroids@),
        centroids@.len() >= 1,
    ensures
        r == nearest(*p, centroids@),
        r < centroids@.len(),
{
    let mut best: usize = 0;
    let mut j: usize = 1;
    while j < centroids.len()
        invariant
            1 <= j <= centroids@.len(),
            valid_point(*p),
            valid_centroids(centroids@),
            best == nearest_upto(*p, centroids@, j as int),
            best < j,
        decreases centroids@.len() - j,
    {
        if is_strictly_closer(p, &centroids[j], &centroids[best]) {
            best = j;
        }
        j += 1;
    }
    best
}

/// Groups the points by nearest center: group `i` holds, in input order, the
/// points whose nearest center is `centroids[i]` (the lowest index on a tie).
pub fn assign_clusters(points: &[Point], centroids: &[Centroid]) -> (r: Vec<Vec<Point>>)
    requires
        valid_points(points@),
        valid_centroids(centroids@),
        centroids@.len() >= 1,
    ensures
        groups_view(r@) == assignment(points@, centroids@),
{
    let mut clusters: Vec<Vec<Point>> = Vec::new();
    while clusters.len() < centroids.len()
        invariant
            clusters@.len() <= centroids@.len(),
            forall|c: int| 0 <= c < clusters@.len() ==> (#[trigger] clusters@[c])@ == Seq::<Point>::empty(),
        decreases centroids@.len() - clusters@.len(),
    {
        clusters.push(Vec::new());
    }
    let mut i: usize = 0;
    while i < points.len()
        invariant
            0 <= i <= points@.len(),
            valid_points(points@),
            valid_centroids(centroids@),
            centroids@.len() >= 1,
            clusters@.len() == centroids@.len(),
            forall|c: int|
                0 <= c < clusters@.len() ==> (#[trigger] clusters@[c])@ == members(
                    points@.take(i as int),
                    centroids@,
                    c,
                ),
        decreases points@.len() - i,
    {
        let p = points[i];
        let idx = nearest_index(&p, centroids);
        let ghost before = clusters@;
        clusters[idx].push(p);
        proof {
            let next = points@.take(i + 1);
            assert(next.drop_last() =~= points@.take(i as int));
            assert(next.last() == p);
            assert forall|c: int| 0 <= c < clusters@.len() implies (#[trigger] clusters@[c])@
                == members(next, centroids@, c) by {
                if c != idx {
                    assert(clusters@[c] == before[c]);
                }
            }
        }
        i += 1;
    }
    proof {
        assert(points@.take(points@.len() as int) =~= points@);
        assert(groups_view(clusters@) =~= assignment(points@, centroids@));
    }
    clusters
}

/// Mean of a non-empty group of points.
fn mean_of_slice(cluster: &[Point]) -> (r: Centroid)
    requires
        1 <= cluster@.len() <= MAX_POINTS,
        valid_points(cluster@),
    ensures
        r == mean_of(cluster@),
        valid_centroid(r),
{
    let mut sx: i64 = 0;
    let mut sy: i64 = 0;
    let mut i: usize = 0;
    while i < cluster.len()
        invariant
            0 <= i <= cluster@.len() <= MAX_POINTS,
            valid_points(cluster@),
            sx == sum_x(cluster@.take(i as int)),
            sy == sum_y(cluster@.take(i as int)),
            -(i * MAX_COORD) <= sx <= i * MAX_COORD,
            -(i * MAX_COORD) <= sy <= i * MAX_COORD,
        decreases cluster@.len() - i,
    {
        let p = cluster[i];
        proof {
            assert(cluster@.take(i + 1).drop_last() =~= cluster@.take(i as int));
            assert(valid_point(cluster@[i as int]));
        }
        sx = sx + p.x;
        sy = sy + p.y;
        i += 1;
    }
    proof {
        assert(cluster@.take(cluster@.len() as int) =~= cluster@);
        lemma_mean_valid(cluster@);
    }
    Centroid { sum: Point { x: sx, y: sy }, count: cluster.len() as u64 }
}

/// The center of a non-empty group: the exact mean of its points.
pub fn calculate_centroid(cluster: Vec<Point>) -> (r: Centroid)
    requires
        1 <= cluster@.len() <= MAX_POINTS,
        valid_points(cluster@),
    ensures
        r == mean_of(cluster@),
        valid_centroid(r),
{
    mean_of_slice(cluster.as_slice())
}

/// New centers from the groups: each non-empty group's mean; a group left
/// empty keeps its previous center.
pub fn recompute_centroids(clusters: &Vec<Vec<Point>>, previous: &Vec<Centroid>) -> (r: Vec<Centroid>)
    requires
        clusters@.len() == previous@.len(),
        valid_centroids(previous@),
        forall|i: int| 0 <= i < clusters@.len() ==> #[trigger] clusters@[i]@.len() <= MAX_POINTS,
        forall|i: int| 0 <= i < clusters@.len() ==> valid_points(#[trigger] clusters@[i]@),
    ensures
        r@ == recomputed(groups_view(clusters@), previous@),
        valid_centroids(r@),
{
    let mut out: Vec<Centroid> = Vec::new();
    let mut i: usize = 0;
    while i < clusters.len()
        invariant
            0 <= i <= clusters@.len() == previous@.len(),
            valid_centroids(previous@),
            forall|j: int| 0 <= j < clusters@.len() ==> #[trigger] clusters@[j]@.len() <= MAX_POINTS,
            forall|j: int| 0 <= j < clusters@.len() ==> valid_points(#[trigger] clusters@[j]@),
            out@.len() == i,
            forall|j: int| 0 <= j < i ==> #[trigger] out@[j] == recomputed(groups_view(clusters@), previous@)[j],
            valid_centroids(out@),
        decreases clusters@.len() - i,
    {
        let group = clusters[i].as_slice();
        if group.len() == 0 {
            out.push(previous[i]);
        } else {
            assert(valid_points(clusters@[i as int]@));
            out.push(mean_of_slice(group));
        }
        i += 1;
    }
    proof {
        assert(out@ =~= recomputed(groups_view(clusters@), previous@));
    }
    out
}

/// Whether two center sequences agree position by position.
pub fn same_centroids(a: &Vec<Centroid>, b: &Vec<Centroid>) -> (r: bool)
    requires
        valid_centroids(a@),
        valid_centroids(b@),
    ensures
        r == same_positions(a@, b@),
{
    if a.len() != b.len() {
        return false;
    }
    let mut i: usize = 0;
    while i < a.len()
        invariant
            0 <= i <= a@.len() == b@.len(),
            valid_centroids(a@),
            valid_centroids(b@),
            forall|j: int| 0 <= j < i ==> same_position(#[trigger] a@[j], b@[j]),
        decreases a@.len() - i,
    {
        if !same_place(&a[i], &b[i]) {
            return false;
        }
        i += 1;
    }
    true
}

/// One round of Lloyd's algorithm on exec values.
fn step(points: &[Point], centroids: &Vec<Centroid>) -> (r: Vec<Centroid>)
    requires
        valid_points(points@),
        valid_centroids(centroids@),
        centroids@.len() >= 1,
    ensures
        r@ == lloyd_step(points@, centroids@),
        valid_centroids(r@),
{
    let clusters = assign_clusters(points, centroids.as_slice());
    proof {
        assert(groups_view(clusters@).len() == clusters@.len());
        assert forall|i: int| 0 <= i < clusters@.len() implies #[trigger] clusters@[i]@.len()
            <= MAX_POINTS && valid_points(clusters@[i]@) by {
            assert(clusters@[i]@ == groups_view(clusters@)[i]);
            assert(groups_view(clusters@)[i] == members(points@, centroids@, i));
            lemma_members_valid(points@, centroids@, i);
        }
    }
    recompute_centroids(&clusters, centroids)
}

/// Clusters `points` into `k` groups with Lloyd's algorithm: `init_func`
/// picks the starting centers, then rounds of assignment and recomputation
/// run until a round moves no center or `max_iterations` rounds have run.
/// The result is the assignment of the points to the final centers.
/// `k` must lie in `1..=points.len()`.
pub fn k_means_algo<F>(
    k: usize,
    points: Vec<Point>,
    max_iterations: usize,
    init_func: F,
    seed: u64,
) -> (r: Result<Vec<Vec<Point>>, ClusterError>) where
    F: Fn(usize, &[Point], u64) -> Result<Vec<Centroid>, ClusterError>,

    requires
        valid_points(points@),
        forall|s: &[Point]| s@ == points@ ==> init_func.requires((k, s, seed)),
        forall|s: &[Point], c: Result<Vec<Centroid>, ClusterError>|
            s@ == points@ && 1 <= k <= points@.len() && #[trigger] init_func.ensures((k, s, seed), c)
                ==> c is Ok && c->Ok_0@.len() == k && valid_centroids(c->Ok_0@),
    ensures
        r is Err <==> (k == 0 || k > points@.len()),
        r is Err ==> r == Err::<Vec<Vec<Point>>, ClusterError>(ClusterError::InvalidClusterCount),
        r is Ok ==> r->Ok_0@.len() == k && pooled(groups_view(r->Ok_0@)) == points@.to_multiset(),
        r is Ok ==> exists|s: &[Point], c0: Vec<Centroid>|
            s@ == points@ && #[trigger] init_func.ensures((k, s, seed), Ok(c0))
                && groups_view(r->Ok_0@) == assignment(
                points@,
                converge(points@, c0@, max_iterations as nat),
            ),
{
    if k == 0 || k > points.len() {
        return Err(ClusterError::InvalidClusterCount);
    }
    let s = points.as_slice();
    let init = init_func(k, s, seed);
    let mut centroids = match init {
        Ok(c) => c,
        Err(e) => {
            return Err(e);
        },
    };
    let ghost c0 = centroids;
    let mut iter: usize = 0;
    let mut stable = false;
    while iter < max_iterations && !stable
        invariant
            0 <= iter <= max_iterations,
            s@ == points@,
            valid_points(points@),
            centroids@.len() == k >= 1,
            valid_centroids(centroids@),
            converge(points@, centroids@, (max_iterations - iter) as nat) == converge(
                points@,
                c0@,
                max_iterations as nat,
            ),
            stable ==> converge(points@, centroids@, (max_iterations - iter) as nat)
                == centroids@,
        decreases max_iterations - iter + (if stable { 0int } else { 1int }),
    {
        let next = step(s, &centroids);
        proof {
            lemma_step_valid(points@, centroids@);
        }
        if same_centroids(&next, &centroids) {
            stable = true;
        } else {
            centroids = next;
            iter += 1;
        }
    }
    let clusters = assign_clusters(s, centroids.as_slice());
    proof {
        lemma_assignment_partitions(points@, centroids@);
        assert(groups_view(clusters@).len() == clusters@.len());
    }
    assert(init_func.ensures((k, s, seed), Ok(c0)));
    Ok(clusters)
}

} // verus!
