//! What every clustering round guarantees, stated over the spec functions
//! that the executable code is proved against.
use vstd::multiset::Multiset;
use vstd::prelude::*;
use vstd::set_lib::{lemma_len_subset, lemma_subset_equality};

use crate::cluster::{
    assignment, lemma_nearest_range, lemma_nearest_upto_range, lemma_step_valid, lloyd_step,
    members, nearest, nearest_upto, same_positions,
};
use crate::geometry::{
    at_point, same_position, scaled_sq_dist, sq_dist, strictly_closer, valid_centroid,
    valid_centroids, valid_points, Centroid, Point,
};
use crate::init::{at_some_point, center_points, nearest_sq, seeded_in_rounds, seeding_choice};

verus! {

broadcast use vstd::seq_lib::group_to_multiset_ensures;

/// The points of all groups together, counted with multiplicity.
pub open spec fn pooled(groups: Seq<Seq<Point>>) -> Multiset<Point>
    decreases groups.len(),
{
    if groups.len() == 0 {
        Multiset::empty()
    } else {
        pooled(groups.drop_last()).add(groups.last().to_multiset())
    }
}

/// The first `m` groups of the assignment of `ps` to `cs`.
spec fn first_groups(ps: Seq<Point>, cs: Seq<Centroid>, m: int) -> Seq<Seq<Point>> {
    Seq::new(m as nat, |i: int| members(ps, cs, i))
}

/// Adding a point to the input adds it to the first `m` groups together
/// exactly when its nearest center is among the first `m`.
proof fn lemma_pooled_push(ps: Seq<Point>, cs: Seq<Centroid>, m: int)
    requires
        ps.len() >= 1,
        cs.len() >= 1,
        0 <= m <= cs.len(),
    ensures
        pooled(first_groups(ps, cs, m)) =~= pooled(first_groups(ps.drop_last(), cs, m)).add(
            if nearest(ps.last(), cs) < m {
                Multiset::singleton(ps.last())
            } else {
                Multiset::empty()
            },
        ),
    decreases m,
{
    let rest = ps.drop_last();
    let x = ps.last();
    lemma_nearest_range(x, cs);
    if m > 0 {
        lemma_pooled_push(ps, cs, m - 1);
        assert(first_groups(ps, cs, m).drop_last() =~= first_groups(ps, cs, m - 1));
        assert(first_groups(rest, cs, m).drop_last() =~= first_groups(rest, cs, m - 1));
        let g = members(ps, cs, m - 1);
        let h = members(rest, cs, m - 1);
        assert(first_groups(ps, cs, m).last() == g);
        assert(first_groups(rest, cs, m).last() == h);
        let before = pooled(first_groups(ps, cs, m - 1));
        let before_rest = pooled(first_groups(rest, cs, m - 1));
        assert(pooled(first_groups(ps, cs, m)) == before.add(g.to_multiset()));
        assert(pooled(first_groups(rest, cs, m)) == before_rest.add(h.to_multiset()));
        if nearest(x, cs) == m - 1 {
            assert(g == h.push(x));
            assert(g.to_multiset() =~= h.to_multiset().insert(x));
        } else {
            assert(g == h);
        }
    } else {
        assert(first_groups(ps, cs, 0) =~= Seq::<Seq<Point>>::empty());
        assert(first_groups(rest, cs, 0) =~= Seq::<Seq<Point>>::empty());
    }
}

/// Assignment loses, duplicates and alters no point: there is one group per
/// center, and the groups together hold exactly the input points, each as
/// often as the input does.
pub proof fn lemma_assignment_partitions(ps: Seq<Point>, cs: Seq<Centroid>)
    requires
        cs.len() >= 1,
    ensures
        assignment(ps, cs).len() == cs.len(),
        pooled(assignment(ps, cs)) =~= ps.to_multiset(),
    decreases ps.len(),
{
    assert(assignment(ps, cs) =~= first_groups(ps, cs, cs.len() as int));
    if ps.len() == 0 {
        assert(ps =~= Seq::<Point>::empty());
        lemma_pooled_empty(cs, cs.len() as int);
    } else {
        let rest = ps.drop_last();
        lemma_assignment_partitions(rest, cs);
        assert(assignment(rest, cs) =~= first_groups(rest, cs, cs.len() as int));
        lemma_pooled_push(ps, cs, cs.len() as int);
        lemma_nearest_range(ps.last(), cs);
        assert(rest.push(ps.last()) =~= ps);
        assert(ps.to_multiset() =~= rest.to_multiset().insert(ps.last()));
    }
}

proof fn lemma_pooled_empty(cs: Seq<Centroid>, m: int)
    requires
        0 <= m <= cs.len(),
    ensures
        pooled(first_groups(Seq::empty(), cs, m)) =~= Multiset::empty(),
    decreases m,
{
    if m > 0 {
        lemma_pooled_empty(cs, m - 1);
        assert(first_groups(Seq::empty(), cs, m).drop_last() =~= first_groups(Seq::empty(), cs, m - 1));
    }
}

/// Centers at the same position give every point the same scaled distance,
/// up to the squares of their counts.
proof fn lemma_scaled_same_position(p: Point, a: Centroid, b: Centroid)
    requires
        same_position(a, b),
    ensures
        scaled_sq_dist(p, a) * (b.count * b.count) == scaled_sq_dist(p, b) * (a.count * a.count),
{
    let n = a.count as int;
    let m = b.count as int;
    let dx = p.x * n - a.sum.x;
    let dy = p.y * n - a.sum.y;
    let ex = p.x * m - b.sum.x;
    let ey = p.y * m - b.sum.y;
    assert(dx * m == ex * n) by (nonlinear_arith)
        requires
            a.sum.x * m == b.sum.x * n,
            dx == p.x * n - a.sum.x,
            ex == p.x * m - b.sum.x;
    assert(dy * m == ey * n) by (nonlinear_arith)
        requires
            a.sum.y * m == b.sum.y * n,
            dy == p.y * n - a.sum.y,
            ey == p.y * m - b.sum.y;
    assert(dx * dx * (m * m) == (dx * m) * (dx * m)) by (nonlinear_arith);
    assert(dy * dy * (m * m) == (dy * m) * (dy * m)) by (nonlinear_arith);
    assert(ex * ex * (n * n) == (ex * n) * (ex * n)) by (nonlinear_arith);
    assert(ey * ey * (n * n) == (ey * n) * (ey * n)) by (nonlinear_arith);
    assert((dx * dx + dy * dy) * (m * m) == dx * dx * (m * m) + dy * dy * (m * m)) by (nonlinear_arith);
    assert((ex * ex + ey * ey) * (n * n) == ex * ex * (n * n) + ey * ey * (n * n)) by (nonlinear_arith);
}

/// Which of two centers is nearer depends on their positions alone.
proof fn lemma_closer_same_position(p: Point, a: Centroid, a2: Centroid, b: Centroid, b2: Centroid)
    requires
        valid_centroid(a),
        valid_centroid(a2),
        valid_centroid(b),
        valid_centroid(b2),
        same_position(a, a2),
        same_position(b, b2),
    ensures
        strictly_closer(p, a, b) == strictly_closer(p, a2, b2),
{
    lemma_scaled_same_position(p, a, a2);
    lemma_scaled_same_position(p, b, b2);
    let d = scaled_sq_dist(p, a);
    let d2 = scaled_sq_dist(p, a2);
    let e = scaled_sq_dist(p, b);
    let e2 = scaled_sq_dist(p, b2);
    let n = a.count * a.count;
    let n2 = a2.count * a2.count;
    let m = b.count * b.count;
    let m2 = b2.count * b2.count;
    assert(n > 0 && n2 > 0 && m > 0 && m2 > 0) by (nonlinear_arith)
        requires a.count >= 1, a2.count >= 1, b.count >= 1, b2.count >= 1,
            n == a.count * a.count, n2 == a2.count * a2.count,
            m == b.count * b.count, m2 == b2.count * b2.count;
    assert((d * m) * (n2 * m2) == (d2 * m2) * (n * m)) by (nonlinear_arith)
        requires d * n2 == d2 * n;
    assert((e * n) * (n2 * m2) == (e2 * n2) * (n * m)) by (nonlinear_arith)
        requires e * m2 == e2 * m;
    let k = n2 * m2;
    let k2 = n * m;
    assert(k > 0 && k2 > 0) by (nonlinear_arith)
        requires n > 0, n2 > 0, m > 0, m2 > 0, k == n2 * m2, k2 == n * m;
    assert((d * m < e * n) == ((d * m) * k < (e * n) * k)) by (nonlinear_arith)
        requires k > 0;
    assert((d2 * m2 < e2 * n2) == ((d2 * m2) * k2 < (e2 * n2) * k2)) by (nonlinear_arith)
        requires k2 > 0;
}

/// Centers at the same positions, index by index, give every point the same
/// nearest index among the first `n`.
proof fn lemma_nearest_upto_same(p: Point, cs: Seq<Centroid>, ds: Seq<Centroid>, n: int)
    requires
        valid_centroids(cs),
        valid_centroids(ds),
        same_positions(cs, ds),
        1 <= n <= cs.len(),
    ensures
        nearest_upto(p, cs, n) == nearest_upto(p, ds, n),
    decreases n,
{
    if n > 1 {
        lemma_nearest_upto_same(p, cs, ds, n - 1);
        let best = nearest_upto(p, cs, n - 1);
        lemma_nearest_upto_range(p, cs, n - 1);
        lemma_closer_same_position(p, cs[n - 1], ds[n - 1], cs[best], ds[best]);
    }
}

proof fn lemma_members_same(ps: Seq<Point>, cs: Seq<Centroid>, ds: Seq<Centroid>, i: int)
    requires
        valid_centroids(cs),
        valid_centroids(ds),
        same_positions(cs, ds),
        cs.len() >= 1,
    ensures
        members(ps, cs, i) == members(ps, ds, i),
    decreases ps.len(),
{
    if ps.len() > 0 {
        lemma_members_same(ps.drop_last(), cs, ds, i);
        lemma_nearest_upto_same(ps.last(), cs, ds, cs.len() as int);
    }
}

/// Centers at the same positions, index by index, split the points into the
/// same groups.
pub proof fn lemma_assignment_same_positions(ps: Seq<Point>, cs: Seq<Centroid>, ds: Seq<Centroid>)
    requires
        valid_centroids(cs),
        valid_centroids(ds),
        same_positions(cs, ds),
        cs.len() >= 1,
    ensures
        assignment(ps, cs) == assignment(ps, ds),
{
    assert forall|i: int| 0 <= i < cs.len() implies #[trigger] assignment(ps, cs)[i] == assignment(ps, ds)[i] by {
        lemma_members_same(ps, cs, ds, i);
    }
    assert(assignment(ps, cs) =~= assignment(ps, ds));
}

/// At a fixed point of Lloyd's algorithm, where a round leaves every center
/// where it was, one more round reproduces the same centers.
pub proof fn lemma_fixed_point_is_stable(ps: Seq<Point>, cs: Seq<Centroid>)
    requires
        valid_points(ps),
        valid_centroids(cs),
        cs.len() >= 1,
        same_positions(lloyd_step(ps, cs), cs),
    ensures
        lloyd_step(ps, lloyd_step(ps, cs)) == lloyd_step(ps, cs),
        same_positions(lloyd_step(ps, lloyd_step(ps, cs)), lloyd_step(ps, cs)),
{
    let next = lloyd_step(ps, cs);
    lemma_step_valid(ps, cs);
    lemma_assignment_same_positions(ps, next, cs);
    let groups = assignment(ps, cs);
    assert(lloyd_step(ps, next) =~= next);
    let again = lloyd_step(ps, next);
    assert forall|i: int| 0 <= i < again.len() implies same_position(#[trigger] again[i], next[i]) by {
    }
}

/// Two points at squared distance zero are the same point.
proof fn lemma_sq_dist_zero(p: Point, q: Point)
    ensures
        sq_dist(p, q) >= 0,
        sq_dist(p, q) == 0 <==> p == q,
{
    let dx = p.x - q.x;
    let dy = p.y - q.y;
    assert(dx * dx >= 0 && dy * dy >= 0) by (nonlinear_arith);
    assert(dx * dx + dy * dy == 0 ==> dx == 0 && dy == 0) by (nonlinear_arith);
    assert(sq_dist(p, q) == dx * dx + dy * dy);
    if sq_dist(p, q) == 0 {
        assert(dx == 0 && dy == 0) by (nonlinear_arith)
            requires dx * dx + dy * dy == 0;
        assert(p.x == q.x && p.y == q.y);
    }
    if p == q {
        assert(dx * dx + dy * dy == 0) by (nonlinear_arith)
            requires dx == 0, dy == 0;
    }
}

/// The nearest squared distance is at most the distance to each chosen
/// point, and equals the distance to one of them.
proof fn lemma_nearest_sq_attained(p: Point, chosen: Seq<Point>)
    requires
        chosen.len() >= 1,
    ensures
        forall|t: int| 0 <= t < chosen.len() ==> nearest_sq(p, chosen) <= #[trigger] sq_dist(p, chosen[t]),
        exists|t: int| 0 <= t < chosen.len() && nearest_sq(p, chosen) == #[trigger] sq_dist(p, chosen[t]),
    decreases chosen.len(),
{
    if chosen.len() == 1 {
        assert(nearest_sq(p, chosen) == sq_dist(p, chosen[0]));
    } else {
        let rest = chosen.drop_last();
        lemma_nearest_sq_attained(p, rest);
        assert forall|t: int| 0 <= t < chosen.len() implies nearest_sq(p, chosen) <= #[trigger] sq_dist(p, chosen[t]) by {
            if t < rest.len() {
                assert(rest[t] == chosen[t]);
                assert(sq_dist(p, rest[t]) == sq_dist(p, chosen[t]));
            }
        }
        let t0 = choose|t: int| 0 <= t < rest.len() && nearest_sq(p, rest) == #[trigger] sq_dist(p, rest[t]);
        assert(rest[t0] == chosen[t0]);
        if sq_dist(p, chosen.last()) < nearest_sq(p, rest) {
            assert(nearest_sq(p, chosen) == sq_dist(p, chosen[chosen.len() - 1]));
        } else {
            assert(nearest_sq(p, chosen) == sq_dist(p, chosen[t0]));
        }
    }
}

/// While fewer centers than distinct points have been chosen, some point
/// has no center on it yet.
proof fn lemma_some_point_uncovered(ps: Seq<Point>, chosen: Seq<Point>)
    requires
        ps.no_duplicates(),
        1 <= chosen.len() < ps.len(),
    ensures
        exists|j: int| 0 <= j < ps.len() && #[trigger] nearest_sq(ps[j], chosen) > 0,
{
    if forall|j: int| 0 <= j < ps.len() ==> #[trigger] nearest_sq(ps[j], chosen) <= 0 {
        assert forall|q: Point| ps.to_set().contains(q) implies chosen.to_set().contains(q) by {
            let j = choose|j: int| 0 <= j < ps.len() && ps[j] == q;
            lemma_nearest_sq_attained(q, chosen);
            let t = choose|t: int| 0 <= t < chosen.len() && nearest_sq(q, chosen) == #[trigger] sq_dist(q, chosen[t]);
            assert(nearest_sq(ps[j], chosen) <= 0);
            lemma_sq_dist_zero(q, chosen[t]);
            assert(chosen.contains(q));
        }
        ps.unique_seq_to_set();
        chosen.lemma_cardinality_of_set();
        lemma_len_subset(ps.to_set(), chosen.to_set());
    }
}

/// Some center sits on the point `p`.
pub open spec fn has_center_at(cs: Seq<Centroid>, p: Point) -> bool {
    exists|i: int| 0 <= i < cs.len() && #[trigger] cs[i] == at_point(p)
}

/// With as many clusters as there are distinct points, k-means++ seeding
/// puts its centers on distinct points, and so on every point: every point of
/// the input is the position of one of the centers.
pub proof fn lemma_seeding_covers_all_points(ps: Seq<Point>, cs: Seq<Centroid>)
    requires
        ps.no_duplicates(),
        cs.len() == ps.len(),
        seeded_in_rounds(ps, cs),
        forall|i: int| 0 <= i < cs.len() ==> at_some_point(#[trigger] cs[i], ps),
    ensures
        center_points(cs).no_duplicates(),
        forall|j: int| 0 <= j < ps.len() ==> has_center_at(cs, #[trigger] ps[j]),
{
    let cp = center_points(cs);
    assert forall|a: int, b: int| 0 <= a < b < cp.len() implies cp[a] != cp[b] by {
        let chosen = center_points(cs.take(b));
        assert(seeding_choice(ps, chosen, cs[b]));
        lemma_some_point_uncovered(ps, chosen);
        let j = choose|j: int| 0 <= j < ps.len() && #[trigger] nearest_sq(ps[j], chosen) > 0 && cs[b] == at_point(ps[j]);
        lemma_nearest_sq_attained(ps[j], chosen);
        assert(chosen[a] == cp[a]);
        assert(sq_dist(ps[j], chosen[a]) > 0);
        lemma_sq_dist_zero(ps[j], chosen[a]);
    }
    assert forall|q: Point| cp.to_set().contains(q) implies ps.to_set().contains(q) by {
        let i = choose|i: int| 0 <= i < cp.len() && cp[i] == q;
        assert(at_some_point(cs[i], ps));
        let j = choose|j: int| 0 <= j < ps.len() && cs[i] == at_point(#[trigger] ps[j]);
        assert(ps.contains(q));
    }
    cp.unique_seq_to_set();
    ps.unique_seq_to_set();
    lemma_subset_equality(cp.to_set(), ps.to_set());
    assert forall|j: int| 0 <= j < ps.len() implies has_center_at(cs, #[trigger] ps[j]) by {
        assert(ps.to_set().contains(ps[j]));
        assert(cp.to_set().contains(ps[j]));
        let i = choose|i: int| 0 <= i < cp.len() && cp[i] == ps[j];
        assert(at_some_point(cs[i], ps));
        let j2 = choose|j2: int| 0 <= j2 < ps.len() && cs[i] == at_point(#[trigger] ps[j2]);
        assert(cs[i] == at_point(ps[j]));
    }
}

} // verus!
