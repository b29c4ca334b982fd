//! Points, centers, and exact comparisons of squared distances.
use vstd::prelude::*;

verus! {

/// Largest absolute value a coordinate may take.
pub const MAX_COORD: i64 = 1_000_000;

/// Largest number of points a clustering run may hold.
pub const MAX_POINTS: usize = 65_536;

/// A point of the plane with integer coordinates.
#[derive(Clone, Copy, Debug, PartialEq, Eq, Structural)]
pub struct Point {
    pub x: i64,
    pub y: i64,
}

/// The center of a cluster, held exactly as the rational point
/// `(sum.x / count, sum.y / count)`: the mean of `count` points whose
/// coordinates add up to `sum`.
#[derive(Clone, Copy, Debug, PartialEq, Eq, Structural)]
pub struct Centroid {
    pub sum: Point,
    pub count: u64,
}

pub open spec fn valid_point(p: Point) -> bool {
    -MAX_COORD <= p.x <= MAX_COORD && -MAX_COORD <= p.y <= MAX_COORD
}

pub open spec fn valid_points(ps: Seq<Point>) -> bool {
    ps.len() <= MAX_POINTS && forall|i: int| 0 <= i < ps.len() ==> valid_point(#[trigger] ps[i])
}

/// A center whose position lies in the square of valid coordinates.
pub open spec fn valid_centroid(c: Centroid) -> bool {
    1 <= c.count <= MAX_POINTS
        && -(c.count * MAX_COORD) <= c.sum.x <= c.count * MAX_COORD
        && -(c.count * MAX_COORD) <= c.sum.y <= c.count * MAX_COORD
}

pub open spec fn valid_centroids(cs: Seq<Centroid>) -> bool {
    forall|i: int| 0 <= i < cs.len() ==> valid_centroid(#[trigger] cs[i])
}

/// The center that sits on a single point.
pub open spec fn at_point(p: Point) -> Centroid {
    Centroid { sum: p, count: 1 }
}

/// Squared distance between two points.
pub open spec fn sq_dist(a: Point, b: Point) -> int {
    (a.x - b.x) * (a.x - b.x) + (a.y - b.y) * (a.y - b.y)
}

/// `count²` times the squared distance from `p` to the center `c`.
pub open spec fn scaled_sq_dist(p: Point, c: Centroid) -> int {
    let dx = p.x * c.count - c.sum.x;
    let dy = p.y * c.count - c.sum.y;
    dx * dx + dy * dy
}

/// `p` is strictly nearer to center `a` than to center `b`.
pub open spec fn strictly_closer(p: Point, a: Centroid, b: Centroid) -> bool {
    scaled_sq_dist(p, a) * (b.count * b.count) < scaled_sq_dist(p, b) * (a.count * a.count)
}

/// Two centers stand at the same position of the plane.
pub open spec fn same_position(a: Centroid, b: Centroid) -> bool {
    a.sum.x * b.count == b.sum.x * a.count && a.sum.y * b.count == b.sum.y * a.count
}

proof fn lemma_offset_bound(v: int, s: int, n: int)
    requires
        1 <= n <= MAX_POINTS,
        -MAX_COORD <= v <= MAX_COORD,
        -(n * MAX_COORD) <= s <= n * MAX_COORD,
    ensures
        0 <= (v * n - s) * (v * n - s) <= 4 * (MAX_POINTS * MAX_COORD) * (MAX_POINTS * MAX_COORD),
{
    assert(-(n * MAX_COORD) <= v * n <= n * MAX_COORD) by (nonlinear_arith)
        requires 1 <= n, -MAX_COORD <= v <= MAX_COORD;
    let d = v * n - s;
    assert(n * MAX_COORD <= MAX_POINTS * MAX_COORD) by (nonlinear_arith)
        requires n <= MAX_POINTS;
    let b = MAX_POINTS * MAX_COORD;
    assert(0 <= d * d <= 4 * b * b) by (nonlinear_arith)
        requires -2 * b <= d <= 2 * b;
}

proof fn lemma_scaled_bound(p: Point, c: Centroid)
    requires
        valid_point(p),
        valid_centroid(c),
    ensures
        0 <= scaled_sq_dist(p, c) <= 8 * (MAX_POINTS * MAX_COORD) * (MAX_POINTS * MAX_COORD),
{
    lemma_offset_bound(p.x as int, c.sum.x as int, c.count as int);
    lemma_offset_bound(p.y as int, c.sum.y as int, c.count as int);
}

proof fn lemma_cross_bound(s: int, n: int, k: int)
    requires
        1 <= n <= MAX_POINTS,
        1 <= k <= MAX_POINTS,
        -(n * MAX_COORD) <= s <= n * MAX_COORD,
    ensures
        -(MAX_POINTS * MAX_COORD * MAX_POINTS) <= s * k <= MAX_POINTS * MAX_COORD * MAX_POINTS,
{
    assert(n * MAX_COORD <= MAX_POINTS * MAX_COORD) by (nonlinear_arith)
        requires n <= MAX_POINTS;
    let b = MAX_POINTS * MAX_COORD;
    assert(-(b * MAX_POINTS) <= s * k <= b * MAX_POINTS) by (nonlinear_arith)
        requires -b <= s <= b, 1 <= k <= MAX_POINTS, b >= 0;
}

/// The squared distance between two valid points is at most `8 * MAX_COORD²`.
pub(crate) proof fn lemma_sq_dist_bound(a: Point, b: Point)
    requires
        valid_point(a),
        valid_point(b),
    ensures
        0 <= sq_dist(a, b) <= 8 * MAX_COORD * MAX_COORD,
{
    let dx = a.x - b.x;
    let dy = a.y - b.y;
    assert(0 <= dx * dx <= 4 * MAX_COORD * MAX_COORD) by (nonlinear_arith)
        requires -2 * MAX_COORD <= dx <= 2 * MAX_COORD;
    assert(0 <= dy * dy <= 4 * MAX_COORD * MAX_COORD) by (nonlinear_arith)
        requires -2 * MAX_COORD <= dy <= 2 * MAX_COORD;
}

/// Squared distance between two valid points.
pub fn sq_distance(a: &Point, b: &Point) -> (r: u64)
    requires
        valid_point(*a),
        valid_point(*b),
    ensures
        r == sq_dist(*a, *b),
{
    let dx = a.x - b.x;
    let dy = a.y - b.y;
    assert(0 <= dx * dx <= 4 * MAX_COORD * MAX_COORD) by (nonlinear_arith)
        requires -2 * MAX_COORD <= dx <= 2 * MAX_COORD;
    assert(0 <= dy * dy <= 4 * MAX_COORD * MAX_COORD) by (nonlinear_arith)
        requires -2 * MAX_COORD <= dy <= 2 * MAX_COORD;
    (dx * dx + dy * dy) as u64
}

/// `count²` times the squared distance from `p` to `c`.
fn scaled_sq_distance(p: &Point, c: &Centroid) -> (r: u128)
    requires
        valid_point(*p),
        valid_centroid(*c),
    ensures
        r == scaled_sq_dist(*p, *c),
{
    proof {
        lemma_offset_bound(p.x as int, c.sum.x as int, c.count as int);
        lemma_offset_bound(p.y as int, c.sum.y as int, c.count as int);
        assert(-(MAX_POINTS * MAX_COORD) <= p.x * c.count <= MAX_POINTS * MAX_COORD
            && -(MAX_POINTS * MAX_COORD) <= p.y * c.count <= MAX_POINTS * MAX_COORD) by (nonlinear_arith)
            requires 1 <= c.count <= MAX_POINTS, valid_point(*p);
    }
    let n = c.count as i128;
    let dx = p.x as i128 * n - c.sum.x as i128;
    let dy = p.y as i128 * n - c.sum.y as i128;
    (dx * dx + dy * dy) as u128
}

/// Whether `p` is strictly nearer to `a` than to `b`, compared exactly.
pub fn is_strictly_closer(p: &Point, a: &Centroid, b: &Centroid) -> (r: bool)
    requires
        valid_point(*p),
        valid_centroid(*a),
        valid_centroid(*b),
    ensures
        r == strictly_closer(*p, *a, *b),
{
    let da = scaled_sq_distance(p, a);
    let db = scaled_sq_distance(p, b);
    let na = a.count as u128;
    let nb = b.count as u128;
    proof {
        lemma_scaled_bound(*p, *a);
        lemma_scaled_bound(*p, *b);
        assert(nb * nb <= MAX_POINTS * MAX_POINTS && na * na <= MAX_POINTS * MAX_POINTS)
            by (nonlinear_arith)
            requires 1 <= nb <= MAX_POINTS, 1 <= na <= MAX_POINTS;
        let m = 8 * (MAX_POINTS * MAX_COORD) * (MAX_POINTS * MAX_COORD);
        assert(da * (nb * nb) <= m * (MAX_POINTS * MAX_POINTS)) by (nonlinear_arith)
            requires 0 <= da <= m, 1 <= nb <= MAX_POINTS;
        assert(db * (na * na) <= m * (MAX_POINTS * MAX_POINTS)) by (nonlinear_arith)
            requires 0 <= db <= m, 1 <= na <= MAX_POINTS;
    }
    da * (nb * nb) < db * (na * na)
}

/// Whether two centers stand at the same position.
pub fn same_place(a: &Centroid, b: &Centroid) -> (r: bool)
    requires
        valid_centroid(*a),
        valid_centroid(*b),
    ensures
        r == same_position(*a, *b),
{
    proof {
        lemma_cross_bound(a.sum.x as int, a.count as int, b.count as int);
        lemma_cross_bound(a.sum.y as int, a.count as int, b.count as int);
        lemma_cross_bound(b.sum.x as int, b.count as int, a.count as int);
        lemma_cross_bound(b.sum.y as int, b.count as int, a.count as int);
    }
    let ax = a.sum.x as i128 * b.count as i128;
    let bx = b.sum.x as i128 * a.count as i128;
    let ay = a.sum.y as i128 * b.count as i128;
    let by = b.sum.y as i128 * a.count as i128;
    ax == bx && ay == by
}

} // verus!
