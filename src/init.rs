//! Three ways of choosing the starting centers: uniformly at random,
//! k-means++, and a k-means++ that keeps each point's nearest distance up to
//! date instead of recomputing it.
use vstd::prelude::*;

use crate::cluster::ClusterError;
use crate::geometry::{
    at_point, lemma_sq_dist_bound, sq_dist, sq_distance, valid_centroid, valid_centroids,
    valid_point, valid_points, Centroid, Point, MAX_COORD, MAX_POINTS,
};
use crate::random::{draw_below, seeded, weight_total, weighted_pick};

verus! {

/// A set of centers.
#[derive(Clone, Debug)]
pub struct Centroids {
    pub centroids: Vec<Centroid>,
}

/// `c` sits on one of the points of `ps`.
pub open spec fn at_some_point(c: Centroid, ps: Seq<Point>) -> bool {
    exists|j: int| 0 <= j < ps.len() && c == at_point(#[trigger] ps[j])
}

/// Squared distance from `p` to the nearest point of `chosen`.
pub open spec fn nearest_sq(p: Point, chosen: Seq<Point>) -> int
    decreases chosen.len(),
{
    if chosen.len() == 0 {
        0
    } else if chosen.len() == 1 {
        sq_dist(p, chosen[0])
    } else {
        let m = nearest_sq(p, chosen.drop_last());
        let d = sq_dist(p, chosen.last());
        if d < m {
            d
        } else {
            m
        }
    }
}

/// `w` gives each point of `ps` its squared distance to the nearest of `chosen`.
pub open spec fn is_seeding_weights(w: Seq<u64>, ps: Seq<Point>, chosen: Seq<Point>) -> bool {
    w.len() == ps.len() && forall|j: int| 0 <= j < ps.len() ==> #[trigger] w[j] == nearest_sq(ps[j], chosen)
}

/// A center that a k-means++ round may add after the centers at `chosen`:
/// one at a point of positive weight, that is, at a point where no center is
/// yet; or, when every point already carries a center, one at the last point.
pub open spec fn seeding_choice(ps: Seq<Point>, chosen: Seq<Point>, c: Centroid) -> bool {
    if forall|j: int| 0 <= j < ps.len() ==> #[trigger] nearest_sq(ps[j], chosen) == 0 {
        c == at_point(ps.last())
    } else {
        exists|j: int| 0 <= j < ps.len() && #[trigger] nearest_sq(ps[j], chosen) > 0 && c == at_point(ps[j])
    }
}

/// The positions of centers that each sit on a point.
pub open spec fn center_points(cs: Seq<Centroid>) -> Seq<Point> {
    cs.map_values(|c: Centroid| c.sum)
}

/// Every center after the first was added by a k-means++ round.
pub open spec fn seeded_in_rounds(ps: Seq<Point>, cs: Seq<Centroid>) -> bool {
    forall|i: int| 1 <= i < cs.len() ==> seeding_choice(ps, center_points(cs.take(i)), #[trigger] cs[i])
}

/// Total of the first `n` weights.
pub open spec fn prefix_total(w: Seq<u64>, n: int) -> int {
    weight_total(w.take(n))
}

proof fn lemma_prefix_step(w: Seq<u64>, n: int)
    requires
        0 <= n < w.len(),
    ensures
        prefix_total(w, n + 1) == prefix_total(w, n) + w[n],
{
    assert(w.take(n + 1).drop_last() =~= w.take(n));
}

proof fn lemma_prefix_le_total(w: Seq<u64>, n: int)
    requires
        0 <= n <= w.len(),
    ensures
        0 <= prefix_total(w, n) <= weight_total(w),
    decreases w.len() - n,
{
    if n < w.len() {
        lemma_prefix_step(w, n);
        lemma_prefix_le_total(w, n + 1);
        lemma_total_nonneg(w.take(n));
    } else {
        assert(w.take(n) =~= w);
        lemma_total_nonneg(w);
    }
}

proof fn lemma_total_nonneg(w: Seq<u64>)
    ensures
        0 <= weight_total(w),
    decreases w.len(),
{
    if w.len() > 0 {
        lemma_total_nonneg(w.drop_last());
    }
}

/// The total of the weights is zero exactly when every weight is.
proof fn lemma_total_zero(w: Seq<u64>)
    ensures
        weight_total(w) == 0 <==> forall|j: int| 0 <= j < w.len() ==> #[trigger] w[j] == 0,
    decreases w.len(),
{
    if w.len() > 0 {
        let rest = w.drop_last();
        lemma_total_zero(rest);
        lemma_total_nonneg(rest);
        if weight_total(w) == 0 {
            assert forall|j: int| 0 <= j < w.len() implies #[trigger] w[j] == 0 by {
                if j < rest.len() {
                    assert(rest[j] == w[j]);
                }
            }
        }
        if forall|j: int| 0 <= j < w.len() ==> #[trigger] w[j] == 0 {
            assert forall|j: int| 0 <= j < rest.len() implies #[trigger] rest[j] == 0 by {
                assert(rest[j] == w[j]);
            }
            assert(w[w.len() - 1] == 0);
        }
    }
}

proof fn lemma_total_bound(w: Seq<u64>)
    requires
        forall|j: int| 0 <= j < w.len() ==> #[trigger] w[j] <= 8 * MAX_COORD * MAX_COORD,
    ensures
        weight_total(w) <= w.len() * (8 * MAX_COORD * MAX_COORD),
    decreases w.len(),
{
    if w.len() > 0 {
        let rest = w.drop_last();
        assert forall|j: int| 0 <= j < rest.len() implies #[trigger] rest[j] <= 8 * MAX_COORD * MAX_COORD by {
            assert(rest[j] == w[j]);
        }
        lemma_total_bound(rest);
        assert(w[w.len() - 1] <= 8 * MAX_COORD * MAX_COORD);
        let b = 8 * MAX_COORD * MAX_COORD;
        assert(rest.len() * b + b == w.len() * b) by (nonlinear_arith)
            requires rest.len() + 1 == w.len();
    }
}

proof fn lemma_nearest_sq_bound(p: Point, chosen: Seq<Point>)
    requires
        valid_point(p),
        valid_points(chosen),
    ensures
        0 <= nearest_sq(p, chosen) <= 8 * MAX_COORD * MAX_COORD,
    decreases chosen.len(),
{
    if chosen.len() == 1 {
        lemma_sq_dist_bound(p, chosen[0]);
    } else if chosen.len() > 1 {
        let rest = chosen.drop_last();
        assert forall|j: int| 0 <= j < rest.len() implies valid_point(#[trigger] rest[j]) by {
            assert(rest[j] == chosen[j]);
        }
        lemma_nearest_sq_bound(p, rest);
        lemma_sq_dist_bound(p, chosen[chosen.len() - 1]);
    }
}

/// Running totals of the weights: entry `i` is the sum of the first `i + 1`.
fn cumsum(weights: &Vec<u64>) -> (r: Vec<u64>)
    requires
        weight_total(weights@) <= u64::MAX,
    ensures
        r@.len() == weights@.len(),
        forall|i: int| 0 <= i < r@.len() ==> #[trigger] r@[i] == prefix_total(weights@, i + 1),
{
    let mut out: Vec<u64> = Vec::new();
    let mut sum: u64 = 0;
    let mut i: usize = 0;
    while i < weights.len()
        invariant
            0 <= i <= weights@.len(),
            weight_total(weights@) <= u64::MAX,
            sum == prefix_total(weights@, i as int),
            out@.len() == i,
            forall|t: int| 0 <= t < i ==> #[trigger] out@[t] == prefix_total(weights@, t + 1),
        decreases weights@.len() - i,
    {
        proof {
            lemma_prefix_step(weights@, i as int);
            lemma_prefix_le_total(weights@, i + 1);
        }
        sum = sum + weights[i];
        out.push(sum);
        i += 1;
    }
    out
}

/// The index that a draw `x` selects from the weights: the first whose running
/// total exceeds `x`. A draw at or past the total of all weights selects the
/// last index.
pub fn select_by_cumulative(weights: &Vec<u64>, x: u64) -> (r: usize)
    requires
        weights@.len() >= 1,
        weight_total(weights@) <= u64::MAX,
    ensures
        r < weights@.len(),
        x < weight_total(weights@) ==> prefix_total(weights@, r as int) <= x < prefix_total(
            weights@,
            r + 1,
        ),
        x >= weight_total(weights@) ==> r == weights@.len() - 1,
{
    let running = cumsum(weights);
    let mut j: usize = 0;
    while j < running.len()
        invariant
            0 <= j <= running@.len() == weights@.len(),
            forall|i: int| 0 <= i < running@.len() ==> #[trigger] running@[i] == prefix_total(weights@, i + 1),
            prefix_total(weights@, j as int) <= x,
        decreases running@.len() - j,
    {
        proof {
            lemma_prefix_le_total(weights@, j + 1);
        }
        if x < running[j] {
            return j;
        }
        j += 1;
    }
    proof {
        assert(weights@.take(weights@.len() as int) =~= weights@);
    }
    weights.len() - 1
}

/// Each point's squared distance to the nearest of the chosen points.
fn seeding_weights(points: &[Point], chosen: &Vec<Point>) -> (r: Vec<u64>)
    requires
        valid_points(points@),
        valid_points(chosen@),
        chosen@.len() >= 1,
    ensures
        is_seeding_weights(r@, points@, chosen@),
{
    let mut out: Vec<u64> = Vec::new();
    let mut j: usize = 0;
    while j < points.len()
        invariant
            0 <= j <= points@.len(),
            valid_points(points@),
            valid_points(chosen@),
            chosen@.len() >= 1,
            out@.len() == j,
            forall|i: int| 0 <= i < j ==> #[trigger] out@[i] == nearest_sq(points@[i], chosen@),
        decreases points@.len() - j,
    {
        let p = points[j];
        assert(valid_point(points@[j as int]));
        let mut m: u64 = sq_distance(&p, &chosen[0]);
        let mut t: usize = 1;
        while t < chosen.len()
            invariant
                1 <= t <= chosen@.len(),
                valid_point(p),
                valid_points(chosen@),
                m == nearest_sq(p, chosen@.take(t as int)),
            decreases chosen@.len() - t,
        {
            assert(valid_point(chosen@[t as int]));
            let d = sq_distance(&p, &chosen[t]);
            proof {
                assert(chosen@.take(t + 1).drop_last() =~= chosen@.take(t as int));
            }
            if d < m {
                m = d;
            }
            t += 1;
        }
        proof {
            assert(chosen@.take(chosen@.len() as int) =~= chosen@);
        }
        out.push(m);
        j += 1;
    }
    out
}

/// Choosing the center at `points[j]` keeps the centers tied to the chosen
/// points, all of them on points of the input.
proof fn lemma_push_center(
    points: Seq<Point>,
    chosen: Seq<Point>,
    cs: Seq<Centroid>,
    j: int,
)
    requires
        valid_points(points),
        0 <= j < points.len(),
        cs.len() == chosen.len(),
        forall|i: int| 0 <= i < cs.len() ==> #[trigger] cs[i] == at_point(chosen[i]),
        forall|i: int| 0 <= i < cs.len() ==> at_some_point(#[trigger] cs[i], points),
    ensures
        forall|i: int|
            0 <= i < cs.len() + 1 ==> #[trigger] cs.push(at_point(points[j]))[i] == at_point(
                chosen.push(points[j])[i],
            ),
        forall|i: int|
            0 <= i < cs.len() + 1 ==> at_some_point(#[trigger] cs.push(at_point(points[j]))[i], points),
        forall|i: int| 1 <= i <= cs.len() ==> #[trigger] center_points(cs.push(at_point(points[j])).take(i))
            == chosen.push(points[j]).take(i),
{
    let cs2 = cs.push(at_point(points[j]));
    let ch2 = chosen.push(points[j]);
    assert(at_some_point(cs2[cs.len() as int], points));
    assert forall|i: int| 1 <= i <= cs.len() implies #[trigger] center_points(cs2.take(i))
        == ch2.take(i) by {
        assert(center_points(cs2.take(i)) =~= ch2.take(i));
    }
}

/// The chosen points of centers that all sit on input points are valid.
proof fn lemma_chosen_valid(points: Seq<Point>, chosen: Seq<Point>, cs: Seq<Centroid>)
    requires
        valid_points(points),
        cs.len() <= points.len(),
        cs.len() == chosen.len(),
        forall|i: int| 0 <= i < cs.len() ==> #[trigger] cs[i] == at_point(chosen[i]),
        forall|i: int| 0 <= i < cs.len() ==> at_some_point(#[trigger] cs[i], points),
    ensures
        valid_points(chosen),
        valid_centroids(cs),
{
    assert forall|i: int| 0 <= i < chosen.len() implies valid_point(#[trigger] chosen[i]) by {
        assert(cs[i] == at_point(chosen[i]));
        assert(at_some_point(cs[i], points));
    }
}

impl Centroids {
    /// `k` centers, each at a point drawn uniformly, with replacement, from
    /// a generator seeded with `seed`. Refused when `k` is zero or exceeds
    /// the number of points.
    pub fn randomly_initialize(k: usize, points: &[Point], seed: u64) -> (r: Result<
        Vec<Centroid>,
        ClusterError,
    >)
        requires
            valid_points(points@),
        ensures
            r is Err <==> (k == 0 || k > points@.len()),
            r is Err ==> r->Err_0 == ClusterError::InvalidClusterCount,
            r is Ok ==> r->Ok_0@.len() == k && valid_centroids(r->Ok_0@) && forall|i: int|
                0 <= i < k ==> at_some_point(#[trigger] r->Ok_0@[i], points@),
    {
        if k == 0 || k > points.len() {
            return Err(ClusterError::InvalidClusterCount);
        }
        let mut rng = seeded(seed);
        let mut centroids: Vec<Centroid> = Vec::new();
        while centroids.len() < k
            invariant
                centroids@.len() <= k <= points@.len() <= MAX_POINTS,
                valid_points(points@),
                valid_centroids(centroids@),
                forall|i: int| 0 <= i < centroids@.len() ==> at_some_point(#[trigger] centroids@[i], points@),
            decreases k - centroids@.len(),
        {
            let index = draw_below(&mut rng, points.len() as u64) as usize;
            let c = Centroid { sum: points[index], count: 1 };
            proof {
                assert(valid_point(points@[index as int]));
                assert(at_some_point(c, points@));
            }
            centroids.push(c);
        }
        Ok(centroids)
    }

    /// k-means++ seeding: the first center at `points[0]`; each further one
    /// at a point picked with probability proportional to its squared
    /// distance to the nearest center so far, the distances recomputed from
    /// all centers in each round. A uniform draw below the total of those
    /// squared distances picks the first point whose running total exceeds
    /// it; when the total is zero the last point is taken. Refused when `k`
    /// is zero or exceeds the number of points.
    pub fn plus_plus_initialize(k: usize, points: &[Point], seed: u64) -> (r: Result<
        Vec<Centroid>,
        ClusterError,
    >)
        requires
            valid_points(points@),
        ensures
            r is Err <==> (k == 0 || k > points@.len()),
            r is Err ==> r->Err_0 == ClusterError::InvalidClusterCount,
            r is Ok ==> r->Ok_0@.len() == k && valid_centroids(r->Ok_0@) && r->Ok_0@[0]
                == at_point(points@[0]) && seeded_in_rounds(points@, r->Ok_0@) && forall|i: int|
                0 <= i < k ==> at_some_point(#[trigger] r->Ok_0@[i], points@),
    {
        if k == 0 || k > points.len() {
            return Err(ClusterError::InvalidClusterCount);
        }
        let mut rng = seeded(seed);
        let mut chosen: Vec<Point> = Vec::new();
        let mut centroids: Vec<Centroid> = Vec::new();
        proof {
            lemma_push_center(points@, chosen@, centroids@, 0);
        }
        chosen.push(points[0]);
        centroids.push(Centroid { sum: points[0], count: 1 });
        while centroids.len() < k
            invariant
                1 <= centroids@.len() <= k <= points@.len() <= MAX_POINTS,
                valid_points(points@),
                chosen@.len() == centroids@.len(),
                forall|i: int| 0 <= i < centroids@.len() ==> #[trigger] centroids@[i] == at_point(chosen@[i]),
                forall|i: int| 0 <= i < centroids@.len() ==> at_some_point(#[trigger] centroids@[i], points@),
                centroids@[0] == at_point(points@[0]),
                seeded_in_rounds(points@, centroids@),
            decreases k - centroids@.len(),
        {
            proof {
                lemma_chosen_valid(points@, chosen@, centroids@);
            }
            let weights = seeding_weights(points, &chosen);
            let j = pick_seeding_index(&mut rng, points, &chosen, &weights);
            let ghost before = centroids@;
            let ghost chosen_before = chosen@;
            proof {
                lemma_push_center(points@, chosen@, centroids@, j as int);
            }
            chosen.push(points[j]);
            centroids.push(Centroid { sum: points[j], count: 1 });
            proof {
                assert forall|i: int| 1 <= i < centroids@.len() implies seeding_choice(
                    points@,
                    center_points(centroids@.take(i)),
                    #[trigger] centroids@[i],
                ) by {
                    if i < before.len() {
                        assert(centroids@.take(i) =~= before.take(i));
                    } else {
                        assert(chosen@.take(i) =~= chosen_before);
                    }
                }
            }
        }
        proof {
            lemma_chosen_valid(points@, chosen@, centroids@);
        }
        Ok(centroids)
    }

    /// The faster k-means++ seeding: the first center at a point drawn
    /// uniformly; then each point's squared distance to the nearest center
    /// is kept in a table, lowered after each new center by the distance to
    /// that center alone, and the next center is drawn with those squared
    /// distances as weights. When they are all zero the last point is taken.
    /// Refused when `k` is zero or exceeds the number of points.
    pub fn fast_plus_plus_initialize(k: usize, points: &[Point], seed: u64) -> (r: Result<
        Vec<Centroid>,
        ClusterError,
    >)
        requires
            valid_points(points@),
        ensures
            r is Err <==> (k == 0 || k > points@.len()),
            r is Err ==> r->Err_0 == ClusterError::InvalidClusterCount,
            r is Ok ==> r->Ok_0@.len() == k && valid_centroids(r->Ok_0@) && seeded_in_rounds(
                points@,
                r->Ok_0@,
            ) && forall|i: int| 0 <= i < k ==> at_some_point(#[trigger] r->Ok_0@[i], points@),
    {
        if k == 0 || k > points.len() {
            return Err(ClusterError::InvalidClusterCount);
        }
        let mut rng = seeded(seed);
        let first = draw_below(&mut rng, points.len() as u64) as usize;
        let mut chosen: Vec<Point> = Vec::new();
        let mut centroids: Vec<Centroid> = Vec::new();
        proof {
            lemma_push_center(points@, chosen@, centroids@, first as int);
        }
        chosen.push(points[first]);
        centroids.push(Centroid { sum: points[first], count: 1 });
        proof {
            lemma_chosen_valid(points@, chosen@, centroids@);
        }
        let mut distances = seeding_weights(points, &chosen);
        while centroids.len() < k
            invariant
                1 <= centroids@.len() <= k <= points@.len() <= MAX_POINTS,
                valid_points(points@),
                chosen@.len() == centroids@.len(),
                forall|i: int| 0 <= i < centroids@.len() ==> #[trigger] centroids@[i] == at_point(chosen@[i]),
                forall|i: int| 0 <= i < centroids@.len() ==> at_some_point(#[trigger] centroids@[i], points@),
                seeded_in_rounds(points@, centroids@),
                is_seeding_weights(distances@, points@, chosen@),
            decreases k - centroids@.len(),
        {
            proof {
                lemma_chosen_valid(points@, chosen@, centroids@);
            }
            let j = pick_weighted_index(&mut rng, points, &chosen, &distances);
            let ghost before = centroids@;
            let ghost chosen_before = chosen@;
            proof {
                lemma_push_center(points@, chosen@, centroids@, j as int);
            }
            chosen.push(points[j]);
            centroids.push(Centroid { sum: points[j], count: 1 });
            proof {
                assert forall|i: int| 1 <= i < centroids@.len() implies seeding_choice(
                    points@,
                    center_points(centroids@.take(i)),
                    #[trigger] centroids@[i],
                ) by {
                    if i < before.len() {
                        assert(centroids@.take(i) =~= before.take(i));
                    } else {
                        assert(chosen@.take(i) =~= chosen_before);
                    }
                }
                lemma_chosen_valid(points@, chosen@, centroids@);
                assert(chosen@.drop_last() =~= chosen_before);
            }
            lower_distances(points, &chosen, &mut distances);
        }
        proof {
            lemma_chosen_valid(points@, chosen@, centroids@);
        }
        Ok(centroids)
    }
}

/// The weights of a round are bounded, so their total fits in `u64`.
proof fn lemma_seeding_total(w: Seq<u64>, points: Seq<Point>, chosen: Seq<Point>)
    requires
        valid_points(points),
        valid_points(chosen),
        is_seeding_weights(w, points, chosen),
    ensures
        weight_total(w) <= u64::MAX,
{
    assert forall|j: int| 0 <= j < w.len() implies #[trigger] w[j] <= 8 * MAX_COORD * MAX_COORD by {
        lemma_nearest_sq_bound(points[j], chosen);
    }
    lemma_total_bound(w);
    let b = 8 * MAX_COORD * MAX_COORD;
    assert(w.len() * b <= MAX_POINTS * b) by (nonlinear_arith)
        requires w.len() <= MAX_POINTS, b >= 0;
}

/// A k-means++ round's pick from its weights: a uniform draw below their
/// total, then the first point whose running total exceeds it; the last
/// point when the total is zero.
fn pick_seeding_index(rng: &mut rand::rngs::StdRng, points: &[Point], chosen: &Vec<Point>, weights: &Vec<u64>) -> (r: usize)
    requires
        valid_points(points@),
        valid_points(chosen@),
        points@.len() >= 1,
        is_seeding_weights(weights@, points@, chosen@),
    ensures
        r < points@.len(),
        seeding_choice(points@, chosen@, at_point(points@[r as int])),
{
    proof {
        lemma_seeding_total(weights@, points@, chosen@);
        lemma_total_zero(weights@);
    }
    let total = total_weight(weights);
    let x = if total == 0 {
        0
    } else {
        draw_below(rng, total)
    };
    let j = select_by_cumulative(weights, x);
    proof {
        if total != 0 {
            lemma_prefix_step(weights@, j as int);
            assert(weights@[j as int] > 0);
            assert(nearest_sq(points@[j as int], chosen@) > 0);
        } else {
            assert forall|i: int| 0 <= i < points@.len() implies #[trigger] nearest_sq(points@[i], chosen@) == 0 by {
                assert(weights@[i] == 0);
            }
        }
    }
    j
}

/// A round of the faster seeding: a draw weighted by the current table of
/// squared distances; the last point when all of them are zero.
fn pick_weighted_index(rng: &mut rand::rngs::StdRng, points: &[Point], chosen: &Vec<Point>, weights: &Vec<u64>) -> (r: usize)
    requires
        valid_points(points@),
        valid_points(chosen@),
        points@.len() >= 1,
        is_seeding_weights(weights@, points@, chosen@),
    ensures
        r < points@.len(),
        seeding_choice(points@, chosen@, at_point(points@[r as int])),
{
    proof {
        lemma_seeding_total(weights@, points@, chosen@);
        lemma_total_zero(weights@);
    }
    match weighted_pick(rng, weights) {
        Some(j) => {
            assert(nearest_sq(points@[j as int], chosen@) > 0);
            j
        },
        None => {
            assert forall|i: int| 0 <= i < points@.len() implies #[trigger] nearest_sq(points@[i], chosen@) == 0 by {
                assert(weights@[i] == 0);
            }
            points.len() - 1
        },
    }
}

/// Sum of the weights.
fn total_weight(weights: &Vec<u64>) -> (r: u64)
    requires
        weight_total(weights@) <= u64::MAX,
    ensures
        r == weight_total(weights@),
{
    let mut sum: u64 = 0;
    let mut i: usize = 0;
    while i < weights.len()
        invariant
            0 <= i <= weights@.len(),
            weight_total(weights@) <= u64::MAX,
            sum == prefix_total(weights@, i as int),
        decreases weights@.len() - i,
    {
        proof {
            lemma_prefix_step(weights@, i as int);
            lemma_prefix_le_total(weights@, i + 1);
        }
        sum = sum + weights[i];
        i += 1;
    }
    proof {
        assert(weights@.take(weights@.len() as int) =~= weights@);
    }
    sum
}

/// Lowers each point's entry to its squared distance to the newest center
/// where that is smaller.
fn lower_distances(points: &[Point], chosen: &Vec<Point>, distances: &mut Vec<u64>)
    requires
        valid_points(points@),
        valid_points(chosen@),
        chosen@.len() >= 2,
        is_seeding_weights(old(distances)@, points@, chosen@.drop_last()),
    ensures
        is_seeding_weights(final(distances)@, points@, chosen@),
{
    let newest = chosen[chosen.len() - 1];
    assert(valid_point(chosen@[chosen@.len() - 1]));
    let mut i: usize = 0;
    while i < points.len()
        invariant
            0 <= i <= points@.len() == distances@.len(),
            valid_points(points@),
            valid_point(newest),
            chosen@.len() >= 2,
            newest == chosen@.last(),
            forall|t: int| 0 <= t < i ==> #[trigger] distances@[t] == nearest_sq(points@[t], chosen@),
            forall|t: int| i <= t < points@.len() ==> #[trigger] distances@[t] == nearest_sq(points@[t], chosen@.drop_last()),
        decreases points@.len() - i,
    {
        assert(valid_point(points@[i as int]));
        let d = sq_distance(&points[i], &newest);
        if d < distances[i] {
            distances[i] = d;
        }
        i += 1;
    }
}

} // verus!
