//! The within-cluster cost of a clustering, over the reals, and the proof
//! that a round of Lloyd's algorithm never raises it.
use vstd::multiset::Multiset;
use vstd::prelude::*;

use crate::cluster::{
    assignment, lemma_mean_valid, lemma_members_valid, lemma_nearest_range, lemma_step_valid,
    lloyd_step, mean_of, members, nearest, nearest_upto, sum_x, sum_y,
};
use crate::geometry::{
    at_point, scaled_sq_dist, strictly_closer, valid_centroid, valid_centroids, valid_points,
    Centroid, Point,
};
use crate::init::{at_some_point, center_points, seeded_in_rounds};
use crate::theorems::{has_center_at, lemma_seeding_covers_all_points};

verus! {

/// First coordinate of a center's position.
pub open spec fn pos_x(c: Centroid) -> real {
    c.sum.x as real / c.count as real
}

/// Second coordinate of a center's position.
pub open spec fn pos_y(c: Centroid) -> real {
    c.sum.y as real / c.count as real
}

/// Sum of the squared distances from the points of `g` to `(a, b)`.
pub open spec fn spread(g: Seq<Point>, a: real, b: real) -> real
    decreases g.len(),
{
    if g.len() == 0 {
        0real
    } else {
        let dx = g.last().x as real - a;
        let dy = g.last().y as real - b;
        spread(g.drop_last(), a, b) + (dx * dx + dy * dy)
    }
}

/// Squared distance from a point to a center's position.
pub open spec fn dist2(p: Point, c: Centroid) -> real {
    let dx = p.x as real - pos_x(c);
    let dy = p.y as real - pos_y(c);
    dx * dx + dy * dy
}

/// Sum of the squared distances from the points of a group to its center.
pub open spec fn group_cost(g: Seq<Point>, c: Centroid) -> real {
    spread(g, pos_x(c), pos_y(c))
}

/// Cost of the first `m` groups, each measured to the center of its index.
pub open spec fn cost_upto(groups: Seq<Seq<Point>>, cs: Seq<Centroid>, m: int) -> real
    decreases m,
{
    if m <= 0 {
        0real
    } else {
        cost_upto(groups, cs, m - 1) + group_cost(groups[m - 1], cs[m - 1])
    }
}

/// The total within-cluster squared distance of the points of `ps` grouped
/// by nearest center of `cs`, each group measured to its own center.
pub open spec fn clustering_cost(ps: Seq<Point>, cs: Seq<Centroid>) -> real {
    cost_upto(assignment(ps, cs), cs, cs.len() as int)
}

/// Moving the reference point from `(m1, m2)` to `(a, b)` changes the spread
/// by the cross terms and `n` times the squared move.
proof fn lemma_spread_shift(g: Seq<Point>, a: real, b: real, m1: real, m2: real)
    ensures
        spread(g, a, b) == spread(g, m1, m2) + 2real * (m1 - a) * (sum_x(g) as real - g.len() as real
            * m1) + 2real * (m2 - b) * (sum_y(g) as real - g.len() as real * m2) + g.len() as real
            * ((m1 - a) * (m1 - a) + (m2 - b) * (m2 - b)),
    decreases g.len(),
{
    if g.len() > 0 {
        let rest = g.drop_last();
        lemma_spread_shift(rest, a, b, m1, m2);
        let x = g.last().x as real;
        let y = g.last().y as real;
        let n = rest.len() as real;
        let sx = sum_x(rest) as real;
        let sy = sum_y(rest) as real;
        assert(sum_x(g) as real == sx + x);
        assert(sum_y(g) as real == sy + y);
        assert(g.len() as real == n + 1real);
        let u = m1 - a;
        let v = m2 - b;
        assert((x - a) * (x - a) == (x - m1) * (x - m1) + 2real * u * (x - m1) + u * u) by (nonlinear_arith)
            requires u == m1 - a;
        assert((y - b) * (y - b) == (y - m2) * (y - m2) + 2real * v * (y - m2) + v * v) by (nonlinear_arith)
            requires v == m2 - b;
        assert(2real * u * ((sx + x) - (n + 1real) * m1) == 2real * u * (sx - n * m1) + 2real * u * (x - m1))
            by (nonlinear_arith);
        assert(2real * v * ((sy + y) - (n + 1real) * m2) == 2real * v * (sy - n * m2) + 2real * v * (y - m2))
            by (nonlinear_arith);
        assert((n + 1real) * (u * u + v * v) == n * (u * u + v * v) + (u * u + v * v)) by (nonlinear_arith);
        assert(spread(g, a, b) == spread(rest, a, b) + ((x - a) * (x - a) + (y - b) * (y - b)));
        assert(spread(g, m1, m2) == spread(rest, m1, m2) + ((x - m1) * (x - m1) + (y - m2) * (y - m2)));
        assert(spread(g, a, b) == spread(g, m1, m2)
            + 2real * u * ((sx + x) - (n + 1real) * m1)
            + 2real * v * ((sy + y) - (n + 1real) * m2)
            + (n + 1real) * (u * u + v * v));
    } else {
        assert(sum_x(g) == 0 && sum_y(g) == 0);
        assert(spread(g, a, b) == 0real && spread(g, m1, m2) == 0real);
        assert(0real * m1 == 0real && 0real * m2 == 0real) by (nonlinear_arith);
        assert(0real * ((m1 - a) * (m1 - a) + (m2 - b) * (m2 - b)) == 0real) by (nonlinear_arith);
        assert(2real * (m1 - a) * 0real == 0real && 2real * (m2 - b) * 0real == 0real) by (nonlinear_arith);
    }
}

/// The mean of a group is where the group's spread is least.
pub proof fn lemma_mean_minimizes(g: Seq<Point>, c: Centroid)
    requires
        1 <= g.len(),
        valid_points(g),
        valid_centroid(c),
    ensures
        group_cost(g, mean_of(g)) <= group_cost(g, c),
{
    lemma_mean_valid(g);
    let m = mean_of(g);
    let n = g.len() as real;
    let m1 = pos_x(m);
    let m2 = pos_y(m);
    assert(m1 == sum_x(g) as real / n);
    assert(m2 == sum_y(g) as real / n);
    assert(n * m1 == sum_x(g) as real) by (nonlinear_arith)
        requires m1 == sum_x(g) as real / n, n >= 1real;
    assert(n * m2 == sum_y(g) as real) by (nonlinear_arith)
        requires m2 == sum_y(g) as real / n, n >= 1real;
    lemma_spread_shift(g, pos_x(c), pos_y(c), m1, m2);
    let u = m1 - pos_x(c);
    let v = m2 - pos_y(c);
    assert(n * (u * u + v * v) >= 0real) by (nonlinear_arith)
        requires n >= 1real;
    assert(sum_x(g) as real - g.len() as real * m1 == 0real);
    assert(sum_y(g) as real - g.len() as real * m2 == 0real);
    assert(2real * u * 0real == 0real && 2real * v * 0real == 0real) by (nonlinear_arith);
    assert(group_cost(g, c) == spread(g, pos_x(c), pos_y(c)));
    assert(group_cost(g, m) == spread(g, m1, m2));
}

proof fn lemma_real_mul(a: int, b: int)
    ensures
        (a * b) as real == a as real * b as real,
{
    assert((a * b) as real == a as real * b as real) by (nonlinear_arith);
}

/// `count²` times the real squared distance is the scaled integer distance.
proof fn lemma_scaled_real(p: Point, c: Centroid)
    requires
        c.count >= 1,
    ensures
        scaled_sq_dist(p, c) as real == (c.count as real * c.count as real) * dist2(p, c),
{
    let n = c.count as real;
    let dx = p.x as real - pos_x(c);
    let dy = p.y as real - pos_y(c);
    assert(pos_x(c) * n == c.sum.x as real) by (nonlinear_arith)
        requires pos_x(c) == c.sum.x as real / n, n >= 1real;
    assert(pos_y(c) * n == c.sum.y as real) by (nonlinear_arith)
        requires pos_y(c) == c.sum.y as real / n, n >= 1real;
    let ix = p.x * c.count - c.sum.x;
    let iy = p.y * c.count - c.sum.y;
    lemma_real_mul(p.x as int, c.count as int);
    lemma_real_mul(p.y as int, c.count as int);
    lemma_real_mul(ix, ix);
    lemma_real_mul(iy, iy);
    assert(ix as real == (p.x * c.count) as real - c.sum.x as real);
    assert(iy as real == (p.y * c.count) as real - c.sum.y as real);
    assert(ix as real == n * dx) by (nonlinear_arith)
        requires
            ix as real == (p.x * c.count) as real - c.sum.x as real,
            (p.x * c.count) as real == p.x as real * n,
            pos_x(c) * n == c.sum.x as real,
            dx == p.x as real - pos_x(c);
    assert(iy as real == n * dy) by (nonlinear_arith)
        requires
            iy as real == (p.y * c.count) as real - c.sum.y as real,
            (p.y * c.count) as real == p.y as real * n,
            pos_y(c) * n == c.sum.y as real,
            dy == p.y as real - pos_y(c);
    assert((ix * ix + iy * iy) as real == (ix as real) * (ix as real) + (iy as real) * (iy as real));
    assert((n * dx) * (n * dx) + (n * dy) * (n * dy) == (n * n) * (dx * dx + dy * dy)) by (nonlinear_arith);
}

/// The exact integer comparison of two centers agrees with their real
/// distances.
proof fn lemma_closer_real(p: Point, a: Centroid, b: Centroid)
    requires
        a.count >= 1,
        b.count >= 1,
    ensures
        strictly_closer(p, a, b) <==> dist2(p, a) < dist2(p, b),
{
    lemma_scaled_real(p, a);
    lemma_scaled_real(p, b);
    let na = a.count as real * a.count as real;
    let nb = b.count as real * b.count as real;
    let da = dist2(p, a);
    let db = dist2(p, b);
    let sa = scaled_sq_dist(p, a);
    let sb = scaled_sq_dist(p, b);
    lemma_real_mul(b.count as int, b.count as int);
    lemma_real_mul(a.count as int, a.count as int);
    lemma_real_mul(sa, b.count * b.count);
    lemma_real_mul(sb, a.count * a.count);
    assert((sa * (b.count * b.count)) as real == sa as real * nb);
    assert((sb * (a.count * a.count)) as real == sb as real * na);
    assert(na > 0real && nb > 0real) by (nonlinear_arith)
        requires a.count as real >= 1real, b.count as real >= 1real,
            na == a.count as real * a.count as real, nb == b.count as real * b.count as real;
    assert((na * da) * nb < (nb * db) * na <==> da < db) by (nonlinear_arith)
        requires na > 0real, nb > 0real;
}

/// The nearest of the first `n` centers is at least as near as each of them.
proof fn lemma_nearest_upto_min(p: Point, cs: Seq<Centroid>, n: int)
    requires
        valid_centroids(cs),
        1 <= n <= cs.len(),
    ensures
        0 <= nearest_upto(p, cs, n) < n,
        forall|j: int| 0 <= j < n ==> dist2(p, cs[nearest_upto(p, cs, n)]) <= #[trigger] dist2(p, cs[j]),
    decreases n,
{
    if n > 1 {
        lemma_nearest_upto_min(p, cs, n - 1);
        let best = nearest_upto(p, cs, n - 1);
        assert(valid_centroid(cs[n - 1]) && valid_centroid(cs[best]));
        lemma_closer_real(p, cs[n - 1], cs[best]);
    }
}

/// Cost of each point measured to the center, among `ds`, of the index of
/// its nearest center among `xs`.
pub open spec fn point_cost(ps: Seq<Point>, xs: Seq<Centroid>, ds: Seq<Centroid>) -> real
    decreases ps.len(),
{
    if ps.len() == 0 {
        0real
    } else {
        point_cost(ps.drop_last(), xs, ds) + dist2(ps.last(), ds[nearest(ps.last(), xs)])
    }
}

proof fn lemma_cost_upto_empty(ps: Seq<Point>, xs: Seq<Centroid>, ds: Seq<Centroid>, m: int)
    requires
        ps.len() == 0,
        0 <= m <= xs.len(),
    ensures
        cost_upto(assignment(ps, xs), ds, m) == 0real,
    decreases m,
{
    if m > 0 {
        lemma_cost_upto_empty(ps, xs, ds, m - 1);
        assert(assignment(ps, xs)[m - 1] == Seq::<Point>::empty());
    }
}

proof fn lemma_cost_upto_push(ps: Seq<Point>, xs: Seq<Centroid>, ds: Seq<Centroid>, m: int)
    requires
        ps.len() >= 1,
        xs.len() >= 1,
        0 <= m <= xs.len(),
        0 <= nearest(ps.last(), xs) < xs.len(),
    ensures
        cost_upto(assignment(ps, xs), ds, m) == cost_upto(assignment(ps.drop_last(), xs), ds, m) + (
        if nearest(ps.last(), xs) < m {
            dist2(ps.last(), ds[nearest(ps.last(), xs)])
        } else {
            0real
        }),
    decreases m,
{
    if m > 0 {
        lemma_cost_upto_push(ps, xs, ds, m - 1);
        let rest = ps.drop_last();
        let x = ps.last();
        let g = members(ps, xs, m - 1);
        let h = members(rest, xs, m - 1);
        assert(assignment(ps, xs)[m - 1] == g);
        assert(assignment(rest, xs)[m - 1] == h);
        if nearest(x, xs) == m - 1 {
            assert(g == h.push(x));
            assert(g.drop_last() =~= h);
        } else {
            assert(g == h);
        }
    }
}

/// Measuring each group to a center is measuring each point to the center of
/// its group.
proof fn lemma_cost_pointwise(ps: Seq<Point>, xs: Seq<Centroid>, ds: Seq<Centroid>)
    requires
        xs.len() >= 1,
    ensures
        cost_upto(assignment(ps, xs), ds, xs.len() as int) == point_cost(ps, xs, ds),
    decreases ps.len(),
{
    if ps.len() == 0 {
        lemma_cost_upto_empty(ps, xs, ds, xs.len() as int);
    } else {
        lemma_cost_pointwise(ps.drop_last(), xs, ds);
        lemma_nearest_range(ps.last(), xs);
        lemma_cost_upto_push(ps, xs, ds, xs.len() as int);
    }
}

/// Each point is measured to its own nearest center at no more cost than to
/// the center of any other choice of index.
proof fn lemma_point_cost_nearest(ps: Seq<Point>, xs: Seq<Centroid>, ds: Seq<Centroid>)
    requires
        valid_centroids(ds),
        xs.len() == ds.len() >= 1,
    ensures
        point_cost(ps, ds, ds) <= point_cost(ps, xs, ds),
    decreases ps.len(),
{
    if ps.len() > 0 {
        lemma_point_cost_nearest(ps.drop_last(), xs, ds);
        let x = ps.last();
        lemma_nearest_upto_min(x, ds, ds.len() as int);
        lemma_nearest_range(x, xs);
        assert(dist2(x, ds[nearest(x, ds)]) <= dist2(x, ds[nearest(x, xs)]));
    }
}

/// Recomputing the centers does not raise the cost of the groups.
proof fn lemma_recompute_lowers(ps: Seq<Point>, cs: Seq<Centroid>, m: int)
    requires
        valid_points(ps),
        valid_centroids(cs),
        0 <= m <= cs.len(),
    ensures
        cost_upto(assignment(ps, cs), lloyd_step(ps, cs), m) <= cost_upto(assignment(ps, cs), cs, m),
    decreases m,
{
    if m > 0 {
        lemma_recompute_lowers(ps, cs, m - 1);
        let g = members(ps, cs, m - 1);
        assert(assignment(ps, cs)[m - 1] == g);
        if g.len() > 0 {
            lemma_members_valid(ps, cs, m - 1);
            assert(valid_centroid(cs[m - 1]));
            lemma_mean_minimizes(g, cs[m - 1]);
        }
    }
}

/// A round of Lloyd's algorithm never raises the total within-cluster
/// squared distance: the points grouped by the new centers, measured to them,
/// cost no more than the points grouped by the old centers, measured to those.
pub proof fn lemma_step_lowers_cost(ps: Seq<Point>, cs: Seq<Centroid>)
    requires
        valid_points(ps),
        valid_centroids(cs),
        cs.len() >= 1,
    ensures
        clustering_cost(ps, lloyd_step(ps, cs)) <= clustering_cost(ps, cs),
{
    let ds = lloyd_step(ps, cs);
    lemma_step_valid(ps, cs);
    lemma_cost_pointwise(ps, ds, ds);
    lemma_point_cost_nearest(ps, cs, ds);
    lemma_cost_pointwise(ps, cs, ds);
    lemma_recompute_lowers(ps, cs, cs.len() as int);
}

proof fn lemma_point_cost_zero(ps: Seq<Point>, cs: Seq<Centroid>)
    requires
        valid_centroids(cs),
        cs.len() >= 1,
        forall|j: int| 0 <= j < ps.len() ==> has_center_at(cs, #[trigger] ps[j]),
    ensures
        point_cost(ps, cs, cs) == 0real,
    decreases ps.len(),
{
    if ps.len() > 0 {
        let rest = ps.drop_last();
        assert forall|j: int| 0 <= j < rest.len() implies has_center_at(cs, #[trigger] rest[j]) by {
            assert(rest[j] == ps[j]);
        }
        lemma_point_cost_zero(rest, cs);
        let x = ps.last();
        assert(has_center_at(cs, ps[ps.len() - 1]));
        let i = choose|i: int| 0 <= i < cs.len() && #[trigger] cs[i] == at_point(x);
        lemma_nearest_upto_min(x, cs, cs.len() as int);
        assert(cs[i].count == 1 && cs[i].sum == x);
        assert(cs[i].count as real == 1real);
        assert(x.x as real / 1real == x.x as real && x.y as real / 1real == x.y as real) by (nonlinear_arith);
        assert(pos_x(cs[i]) == x.x as real && pos_y(cs[i]) == x.y as real);
        assert(dist2(x, cs[i]) == 0real);
        let c = cs[nearest(x, cs)];
        let dx = x.x as real - pos_x(c);
        let dy = x.y as real - pos_y(c);
        assert(dx * dx + dy * dy >= 0real) by (nonlinear_arith);
    }
}

/// When every point carries a center, the clustering costs nothing: each
/// point lies at the center of its own group.
pub proof fn lemma_zero_cost_when_points_are_centers(ps: Seq<Point>, cs: Seq<Centroid>)
    requires
        valid_centroids(cs),
        cs.len() >= 1,
        forall|j: int| 0 <= j < ps.len() ==> has_center_at(cs, #[trigger] ps[j]),
    ensures
        clustering_cost(ps, cs) == 0real,
{
    lemma_cost_pointwise(ps, cs, cs);
    lemma_point_cost_zero(ps, cs);
}

/// With as many clusters as there are distinct points, the centers that
/// k-means++ seeding picks sit on distinct points, every group they give
/// holds exactly one point, and the clustering costs nothing.
pub proof fn lemma_seeding_all_points(ps: Seq<Point>, cs: Seq<Centroid>)
    requires
        ps.no_duplicates(),
        valid_points(ps),
        1 <= cs.len() == ps.len(),
        valid_centroids(cs),
        seeded_in_rounds(ps, cs),
        forall|i: int| 0 <= i < cs.len() ==> at_some_point(#[trigger] cs[i], ps),
    ensures
        center_points(cs).no_duplicates(),
        forall|i: int| 0 <= i < cs.len() ==> (#[trigger] assignment(ps, cs)[i]).len() == 1,
        clustering_cost(ps, cs) == 0real,
{
    lemma_seeding_covers_all_points(ps, cs);
    lemma_seeding_all_points_one_each(ps, cs);
    lemma_zero_cost_when_points_are_centers(ps, cs);
}

/// A point that carries a center, among centers on distinct points, has
/// that center as its nearest.
proof fn lemma_nearest_is_own_center(p: Point, cs: Seq<Centroid>, ps: Seq<Point>, i: int)
    requires
        valid_centroids(cs),
        center_points(cs).no_duplicates(),
        forall|t: int| 0 <= t < cs.len() ==> at_some_point(#[trigger] cs[t], ps),
        0 <= i < cs.len(),
        cs[i] == at_point(p),
    ensures
        nearest(p, cs) == i,
{
    lemma_nearest_upto_min(p, cs, cs.len() as int);
    let n = nearest(p, cs);
    assert(at_some_point(cs[n], ps));
    assert(cs[n].count == 1);
    assert(cs[i].count as real == 1real && cs[n].count as real == 1real);
    assert(pos_x(cs[i]) == p.x as real && pos_y(cs[i]) == p.y as real) by (nonlinear_arith)
        requires pos_x(cs[i]) == p.x as real / 1real, pos_y(cs[i]) == p.y as real / 1real;
    let qx = cs[n].sum.x as real;
    let qy = cs[n].sum.y as real;
    assert(pos_x(cs[n]) == qx && pos_y(cs[n]) == qy) by (nonlinear_arith)
        requires pos_x(cs[n]) == qx / 1real, pos_y(cs[n]) == qy / 1real;
    let ex = p.x as real - pos_x(cs[i]);
    let ey = p.y as real - pos_y(cs[i]);
    assert(ex * ex + ey * ey == 0real) by (nonlinear_arith)
        requires ex == 0real, ey == 0real;
    assert(dist2(p, cs[i]) == 0real);
    let dx = p.x as real - qx;
    let dy = p.y as real - qy;
    assert(dx == 0real && dy == 0real) by (nonlinear_arith)
        requires dx * dx + dy * dy <= 0real;
    assert(cs[n].sum == p);
    assert(center_points(cs)[n] == center_points(cs)[i]);
}

/// The group of a center holds each point whose nearest center it is; when
/// that is exactly the points equal to `q`, it holds as many points as there
/// are copies of `q`.
proof fn lemma_members_count(ps: Seq<Point>, cs: Seq<Centroid>, i: int, q: Point)
    requires
        forall|j: int| 0 <= j < ps.len() ==> (nearest(#[trigger] ps[j], cs) == i <==> ps[j] == q),
    ensures
        members(ps, cs, i).len() == ps.to_multiset().count(q),
    decreases ps.len(),
{
    broadcast use vstd::seq_lib::group_to_multiset_ensures;

    if ps.len() == 0 {
        assert(ps.to_multiset() =~= Multiset::empty());
    } else {
        let rest = ps.drop_last();
        assert forall|j: int| 0 <= j < rest.len() implies (nearest(#[trigger] rest[j], cs) == i <==> rest[j] == q) by {
            assert(rest[j] == ps[j]);
        }
        lemma_members_count(rest, cs, i, q);
        assert(rest.push(ps.last()) =~= ps);
        assert(ps.to_multiset() =~= rest.to_multiset().insert(ps.last()));
        assert(nearest(ps[ps.len() - 1], cs) == i <==> ps[ps.len() - 1] == q);
    }
}

/// Among centers on distinct points that cover every point, the points
/// nearest to center `i` are exactly those at its position.
proof fn lemma_own_group(ps: Seq<Point>, cs: Seq<Centroid>, i: int)
    requires
        valid_centroids(cs),
        center_points(cs).no_duplicates(),
        forall|t: int| 0 <= t < cs.len() ==> at_some_point(#[trigger] cs[t], ps),
        forall|j: int| 0 <= j < ps.len() ==> has_center_at(cs, #[trigger] ps[j]),
        0 <= i < cs.len(),
    ensures
        forall|j: int| 0 <= j < ps.len() ==> (nearest(#[trigger] ps[j], cs) == i <==> ps[j] == cs[i].sum),
{
    assert forall|j: int| 0 <= j < ps.len() implies (nearest(#[trigger] ps[j], cs) == i <==> ps[j] == cs[i].sum) by {
        assert(has_center_at(cs, ps[j]));
        let t = choose|t: int| 0 <= t < cs.len() && #[trigger] cs[t] == at_point(ps[j]);
        lemma_nearest_is_own_center(ps[j], cs, ps, t);
        if ps[j] == cs[i].sum {
            assert(at_some_point(cs[i], ps));
            assert(cs[i] == at_point(ps[j]));
            lemma_nearest_is_own_center(ps[j], cs, ps, i);
        }
    }
}

/// With as many clusters as there are distinct points, k-means++ seeding
/// gives every group exactly one point.
proof fn lemma_seeding_all_points_one_each(ps: Seq<Point>, cs: Seq<Centroid>)
    requires
        ps.no_duplicates(),
        valid_points(ps),
        1 <= cs.len() == ps.len(),
        valid_centroids(cs),
        seeded_in_rounds(ps, cs),
        forall|i: int| 0 <= i < cs.len() ==> at_some_point(#[trigger] cs[i], ps),
    ensures
        forall|i: int| 0 <= i < cs.len() ==> (#[trigger] assignment(ps, cs)[i]).len() == 1,
{
    lemma_seeding_covers_all_points(ps, cs);
    ps.lemma_multiset_has_no_duplicates();
    assert forall|i: int| 0 <= i < cs.len() implies (#[trigger] assignment(ps, cs)[i]).len() == 1 by {
        let q = cs[i].sum;
        assert(at_some_point(cs[i], ps));
        let j0 = choose|j: int| 0 <= j < ps.len() && cs[i] == at_point(#[trigger] ps[j]);
        lemma_own_group(ps, cs, i);
        lemma_members_count(ps, cs, i, q);
        assert(ps[j0] == q);
        assert(ps.to_multiset().count(q) > 0) by {
            broadcast use vstd::seq_lib::group_to_multiset_ensures;
            assert(ps.contains(q));
        }
        assert(assignment(ps, cs)[i] == members(ps, cs, i));
    }
}

} // verus!
