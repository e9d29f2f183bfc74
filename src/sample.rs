use crate::geometry::{Point, UNIT};
use rand::Rng;
use vstd::prelude::*;

verus! {

#[verifier::external_type_specification]
#[verifier::external_body]
pub struct ExThreadRng(rand::rngs::ThreadRng);

/// Relies on `rand::rng`: a handle to the thread-local random generator.
#[verifier::external_body]
fn thread_rng() -> (r: rand::rngs::ThreadRng) {
    rand::rng()
}

/// Relies on `rand::Rng::random_range` over the inclusive range `0..=UNIT`:
/// the value drawn lies in that range.
#[verifier::external_body]
fn random_coordinate(rng: &mut rand::rngs::ThreadRng) -> (r: u32)
    ensures
        r <= UNIT,
{
    rng.random_range(0..=UNIT)
}

/// Draws `num_points` points of `dimension` axes each, every coordinate
/// uniformly from the cube's grid `0..=UNIT`.
pub fn random_points(dimension: usize, num_points: usize) -> (r: Vec<Point>)
    ensures
        r@.len() == num_points,
        forall|i: int|
            0 <= i < num_points ==> #[trigger] r@[i]@.len() == dimension && forall|k: int|
                0 <= k < dimension ==> r@[i]@[k] <= UNIT,
{
    let mut rng = thread_rng();
    let mut points: Vec<Point> = Vec::new();
    let mut i: usize = 0;
    while i < num_points
        invariant
            i <= num_points,
            points@.len() == i,
            forall|a: int|
                0 <= a < i ==> #[trigger] points@[a]@.len() == dimension && forall|k: int|
                    0 <= k < dimension ==> points@[a]@[k] <= UNIT,
        decreases num_points - i,
    {
        let mut coordinates: Vec<u32> = Vec::new();
        let mut k: usize = 0;
        while k < dimension
            invariant
                k <= dimension,
                coordinates@.len() == k,
                forall|b: int| 0 <= b < k ==> coordinates@[b] <= UNIT,
            decreases dimension - k,
        {
            coordinates.push(random_coordinate(&mut rng));
            k = k + 1;
        }
        points.push(Point::new(coordinates));
        i = i + 1;
    }
    points
}

} // verus!
