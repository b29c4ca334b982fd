//! The seeded generator and the draws made from it.
use vstd::prelude::*;

use rand::distributions::{Distribution, WeightedIndex};
use rand::rngs::StdRng;
use rand::{Rng, SeedableRng};

use crate::geometry::Point;

verus! {

#[verifier::external_type_specification]
#[verifier::external_body]
pub struct ExStdRng(StdRng);

/// Sum of a sequence of weights.
pub open spec fn weight_total(w: Seq<u64>) -> int
    decreases w.len(),
{
    if w.len() == 0 {
        0
    } else {
        weight_total(w.drop_last()) + w.last()
    }
}

/// Relies on rand's `SeedableRng::seed_from_u64` for `StdRng`: a generator
/// seeded from `seed`.
#[verifier::external_body]
pub(crate) fn seeded(seed: u64) -> StdRng {
    StdRng::seed_from_u64(seed)
}

/// Relies on rand's `Rng::gen_range` on `0..n`: a value below `n`. It panics on
/// an empty range, which `requires` leaves out.
#[verifier::external_body]
pub(crate) fn draw_below(rng: &mut StdRng, n: u64) -> (r: u64)
    requires
        n > 0,
    ensures
        r < n,
{
    rng.gen_range(0..n)
}

/// Relies on rand's `WeightedIndex::new` over `u64` weights, which fails when
/// there is no weight or all are zero, and on its `sample`, which returns an
/// index whose weight is positive. `requires` keeps the running total of
/// the weights, which `new` adds up in `u64`, from overflowing.
#[verifier::external_body]
pub(crate) fn weighted_pick(rng: &mut StdRng, weights: &Vec<u64>) -> (r: Option<usize>)
    requires
        weight_total(weights@) <= u64::MAX,
    ensures
        r is None <==> weight_total(weights@) == 0,
        r is Some ==> r->0 < weights@.len() && weights@[r->0 as int] > 0,
{
    match WeightedIndex::new(weights.iter()) {
        Ok(d) => Some(d.sample(rng)),
        Err(_) => None,
    }
}

/// `k` points with both coordinates drawn uniformly from `0..100`, from a
/// generator seeded with `seed`.
pub fn generate_points(k: usize, seed: u64) -> (r: Vec<Point>)
    ensures
        r@.len() == k,
        forall|i: int| 0 <= i < k ==> 0 <= #[trigger] r@[i].x < 100 && 0 <= r@[i].y < 100,
{
    let mut rng = seeded(seed);
    let mut points: Vec<Point> = Vec::new();
    while points.len() < k
        invariant
            points@.len() <= k,
            forall|i: int| 0 <= i < points@.len() ==> 0 <= #[trigger] points@[i].x < 100 && 0 <= points@[i].y < 100,
        decreases k - points@.len(),
    {
        let x = draw_below(&mut rng, 100);
        let y = draw_below(&mut rng, 100);
        points.push(Point { x: x as i64, y: y as i64 });
    }
    points
}

} // verus!
