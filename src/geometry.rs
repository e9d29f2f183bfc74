use vstd::prelude::*;

verus! {

/// Number of coordinate units along each side of the cube.
pub const UNIT: u32 = 1_000_000;

/// The largest `r` with `r * r <= x`.
pub open spec fn floor_sqrt(x: nat) -> nat
    decreases x,
{
    if x == 0 {
        0
    } else {
        let r = floor_sqrt((x - 1) as nat);
        if (r + 1) * (r + 1) <= x {
            r + 1
        } else {
            r
        }
    }
}

proof fn lemma_square_monotone(a: nat, b: nat)
    requires
        a <= b,
    ensures
        a * a <= b * b,
{
    assert(a * a <= b * b) by (nonlinear_arith)
        requires
            a <= b,
    ;
}

pub proof fn lemma_floor_sqrt(x: nat)
    ensures
        floor_sqrt(x) * floor_sqrt(x) <= x,
        x < (floor_sqrt(x) + 1) * (floor_sqrt(x) + 1),
    decreases x,
{
    if x > 0 {
        let r = floor_sqrt((x - 1) as nat);
        lemma_floor_sqrt((x - 1) as nat);
        if (r + 1) * (r + 1) <= x {
            let s = r + 1;
            assert(floor_sqrt(x) == s);
            assert(x < (s + 1) * (s + 1)) by (nonlinear_arith)
                requires
                    s == r + 1,
                    x - 1 < (r + 1) * (r + 1),
            ;
            assert(s * s <= x);
        } else {
            assert(floor_sqrt(x) == r);
            assert(x < (r + 1) * (r + 1));
        }
    } else {
        assert(floor_sqrt(x) == 0);
        let z = floor_sqrt(x);
        assert(x < (z + 1) * (z + 1)) by (nonlinear_arith)
            requires
                z == 0,
                x == 0,
        ;
    }
}

pub proof fn lemma_floor_sqrt_unique(x: nat, r: nat)
    requires
        r * r <= x,
        x < (r + 1) * (r + 1),
    ensures
        r == floor_sqrt(x),
{
    let s = floor_sqrt(x);
    lemma_floor_sqrt(x);
    if r < s {
        lemma_square_monotone(r + 1, s);
    } else if s < r {
        lemma_square_monotone(s + 1, r);
    }
}

/// Squared difference of two coordinates.
pub open spec fn sq_diff(a: u32, b: u32) -> nat {
    let d = a as int - b as int;
    (d * d) as nat
}

/// Sum of the squared coordinate differences over the first `k` axes.
pub open spec fn sq_dist_prefix(p: Seq<u32>, q: Seq<u32>, k: int) -> nat
    decreases k,
{
    if k <= 0 {
        0
    } else {
        sq_dist_prefix(p, q, k - 1) + sq_diff(p[k - 1], q[k - 1])
    }
}

/// Squared Euclidean distance between two points, in squared coordinate units.
pub open spec fn sq_dist(p: Seq<u32>, q: Seq<u32>) -> nat {
    sq_dist_prefix(p, q, p.len() as int)
}

/// Euclidean distance between two points, rounded down to a whole coordinate unit.
pub open spec fn dist(p: Seq<u32>, q: Seq<u32>) -> nat {
    floor_sqrt(sq_dist(p, q))
}

/// Distance from one coordinate to the nearer of the two faces on its axis.
/// Negative for a coordinate beyond the far face.
pub open spec fn axis_clearance(c: u32) -> int {
    if c <= UNIT - c {
        c as int
    } else {
        UNIT - c
    }
}

/// Smallest axis clearance over the point's coordinates; `UNIT` for a point
/// without coordinates.
pub open spec fn clearance(p: Seq<u32>) -> int
    decreases p.len(),
{
    if p.len() == 0 {
        UNIT as int
    } else {
        let rest = clearance(p.drop_last());
        let last = axis_clearance(p.last());
        if last < rest {
            last
        } else {
            rest
        }
    }
}

proof fn lemma_sq_dist_prefix_symmetric(p: Seq<u32>, q: Seq<u32>, k: int)
    ensures
        sq_dist_prefix(p, q, k) == sq_dist_prefix(q, p, k),
    decreases k,
{
    if k > 0 {
        lemma_sq_dist_prefix_symmetric(p, q, k - 1);
        let d = p[k - 1] as int - q[k - 1] as int;
        assert(d * d == (-d) * (-d)) by (nonlinear_arith);
    }
}

pub proof fn lemma_dist_symmetric(p: Seq<u32>, q: Seq<u32>)
    requires
        p.len() == q.len(),
    ensures
        dist(p, q) == dist(q, p),
        sq_dist(p, q) == sq_dist(q, p),
{
    lemma_sq_dist_prefix_symmetric(p, q, p.len() as int);
}

pub proof fn lemma_clearance_bounds(p: Seq<u32>)
    ensures
        UNIT - 0x1_0000_0000 < clearance(p) <= UNIT,
        p.len() > 0 ==> clearance(p) <= UNIT / 2,
    decreases p.len(),
{
    if p.len() > 0 {
        lemma_clearance_bounds(p.drop_last());
    }
}

pub proof fn lemma_clearance_nonnegative(p: Seq<u32>)
    requires
        forall|k: int| 0 <= k < p.len() ==> p[k] <= UNIT,
    ensures
        clearance(p) >= 0,
    decreases p.len(),
{
    if p.len() > 0 {
        lemma_clearance_nonnegative(p.drop_last());
    }
}

/// Floor square root of a 128-bit integer, by bisection.
fn floor_sqrt_u128(x: u128) -> (r: u64)
    ensures
        r as nat == floor_sqrt(x as nat),
{
    let mut lo: u128 = 0;
    let mut hi: u128 = 0x1_0000_0000_0000_0000;
    assert(x < hi * hi);
    while hi - lo > 1
        invariant
            lo < hi <= 0x1_0000_0000_0000_0000,
            lo * lo <= x,
            x < hi * hi,
        decreases hi - lo,
    {
        let mid = lo + (hi - lo) / 2;
        assert(mid * mid < 0x1_0000_0000_0000_0000 * 0x1_0000_0000_0000_0000) by (nonlinear_arith)
            requires
                mid < 0x1_0000_0000_0000_0000,
        ;
        if mid * mid <= x {
            lo = mid;
        } else {
            hi = mid;
        }
    }
    proof {
        lemma_floor_sqrt_unique(x as nat, lo as nat);
    }
    lo as u64
}

/// A point of the cube: its coordinates, each in units of `1 / UNIT`.
pub struct Point(Vec<u32>);

impl View for Point {
    type V = Seq<u32>;

    closed spec fn view(&self) -> Seq<u32> {
        self.0@
    }
}

impl Point {
    pub fn new(coordinates: Vec<u32>) -> (r: Point)
        ensures
            r@ == coordinates@,
    {
        Point(coordinates)
    }

    pub fn dimension(&self) -> (r: usize)
        ensures
            r == self@.len(),
    {
        self.0.len()
    }

    pub fn coordinate(&self, axis: usize) -> (r: u32)
        requires
            axis < self@.len(),
        ensures
            r == self@[axis as int],
    {
        self.0[axis]
    }
}

/// A point set is usable when every point has the same number of axes, at least one.
pub open spec fn uniform(pts: Seq<Seq<u32>>) -> bool {
    forall|i: int, j: int|
        0 <= i < pts.len() && 0 <= j < pts.len() ==> pts[i].len() == pts[j].len() && pts[i].len()
            >= 1
}

/// The points whose balls are grown, in order; all of one dimension.
pub struct Points<'a>(&'a Vec<Point>);

impl<'a> View for Points<'a> {
    type V = Seq<Seq<u32>>;

    closed spec fn view(&self) -> Seq<Seq<u32>> {
        self.0@.map_values(|p: Point| p@)
    }
}

impl<'a> Points<'a> {
    #[verifier::type_invariant]
    spec fn inv(&self) -> bool {
        uniform(self@)
    }

    /// Accepts the points when they share one dimension of at least one axis.
    pub fn new(points: &'a Vec<Point>) -> (r: Option<Points<'a>>)
        ensures
            r is Some <==> uniform(points@.map_values(|p: Point| p@)),
            r matches Some(s) ==> s@ == points@.map_values(|p: Point| p@),
    {
        let ghost pts = points@.map_values(|p: Point| p@);
        let n = points.len();
        if n == 0 {
            return Some(Points(points));
        }
        let d = points[0].dimension();
        if d == 0 {
            assert(!uniform(pts)) by {
                assert(pts[0].len() == 0);
            }
            return None;
        }
        let mut i: usize = 1;
        while i < n
            invariant
                1 <= i <= n,
                n == points@.len(),
                n == pts.len(),
                pts == points@.map_values(|p: Point| p@),
                d == pts[0].len(),
                d >= 1,
                forall|k: int| 0 <= k < i ==> pts[k].len() == d,
            decreases n - i,
        {
            if points[i].dimension() != d {
                assert(!uniform(pts)) by {
                    assert(pts[i as int].len() != pts[0].len());
                }
                return None;
            }
            i = i + 1;
        }
        Some(Points(points))
    }

    /// Number of points; also makes the set's uniform dimension known.
    pub fn len(&self) -> (r: usize)
        ensures
            r == self@.len(),
            uniform(self@),
    {
        proof {
            use_type_invariant(self);
        }
        self.0.len()
    }

    pub fn point(&self, i: usize) -> (r: &Point)
        requires
            i < self@.len(),
        ensures
            r@ == self@[i as int],
    {
        &self.0[i]
    }

}

/// Euclidean distance between two points of one dimension, rounded down.
pub fn distance(point1: &Point, point2: &Point) -> (r: u64)
    requires
        point1@.len() == point2@.len(),
    ensures
        r as nat == dist(point1@, point2@),
{
    let ghost (p, q) = (point1@, point2@);
    let n = point1.dimension();
    let mut sum: u128 = 0;
    let mut i: usize = 0;
    while i < n
        invariant
            i <= n,
            n == p.len(),
            n == q.len(),
            p == point1@,
            q == point2@,
            sum as nat == sq_dist_prefix(p, q, i as int),
            sum <= i * 0xffff_ffff_0000_0001,
        decreases n - i,
    {
        let a = point1.coordinate(i);
        let b = point2.coordinate(i);
        let d: u64 = if a >= b {
            (a - b) as u64
        } else {
            (b - a) as u64
        };
        assert(d * d <= 0xffff_ffff_0000_0001) by (nonlinear_arith)
            requires
                d <= 0xffff_ffff,
        ;
        let sq = (d as u128) * (d as u128);
        assert(sq == sq_diff(p[i as int], q[i as int])) by (nonlinear_arith)
            requires
                d == (if a >= b { a - b } else { b - a }),
                sq == d * d,
                a == p[i as int],
                b == q[i as int],
        ;
        assert(sum + sq <= (i + 1) * 0xffff_ffff_0000_0001) by (nonlinear_arith)
            requires
                sum <= i * 0xffff_ffff_0000_0001,
                sq <= 0xffff_ffff_0000_0001,
        ;
        sum = sum + sq;
        i = i + 1;
    }
    floor_sqrt_u128(sum)
}

/// How far a ball centred at the point can grow before it crosses a face of
/// the cube: the least, over the axes, of the distance to the nearer face.
pub fn max_radius(point: &Point) -> (r: i64)
    ensures
        r == clearance(point@),
{
    let ghost p = point@;
    let n = point.dimension();
    let mut min_distance_to_wall: i64 = UNIT as i64;
    let mut i: usize = 0;
    while i < n
        invariant
            i <= n,
            n == p.len(),
            p == point@,
            min_distance_to_wall == clearance(p.subrange(0, i as int)),
        decreases n - i,
    {
        let c = point.coordinate(i) as i64;
        let unit = UNIT as i64;
        let distance_to_wall = if c <= unit - c {
            c
        } else {
            unit - c
        };
        if distance_to_wall < min_distance_to_wall {
            min_distance_to_wall = distance_to_wall;
        }
        assert(p.subrange(0, i + 1).drop_last() =~= p.subrange(0, i as int));
        i = i + 1;
    }
    assert(p.subrange(0, n as int) =~= p);
    min_distance_to_wall
}

} // verus!
