use vstd::prelude::*;
use crate::geometry::{
    UNIT,
    clearance, dist, floor_sqrt, lemma_clearance_nonnegative, lemma_floor_sqrt, sq_dist, distance, lemma_clearance_bounds, max_radius, uniform, Points,
};

verus! {

/// Fixing state of a run: `Some(r)` once a point's radius is fixed (in half
/// units), `None` while it still grows.
pub type Fixing = Seq<Option<int>>;

/// A commitment: the radius, the point it fixes, and for two balls that meet
/// halfway, the second point fixed with it.
pub type Cand = (int, int, Option<int>);

/// Wall clearance of point `i`, in half units.
pub open spec fn wall(pts: Seq<Seq<u32>>, i: int) -> int {
    2 * clearance(pts[i])
}

/// Distance between points `i` and `j` in coordinate units; in half units
/// this is also the radius at which two balls growing together meet.
pub open spec fn gap(pts: Seq<Seq<u32>>, i: int, j: int) -> int {
    dist(pts[i], pts[j]) as int
}

pub open spec fn min_int(a: int, b: int) -> int {
    if a <= b {
        a
    } else {
        b
    }
}

/// What the ordered pair `(i, j)` proposes in state `st`. With one point
/// fixed, the other grows until it touches that ball or a wall. With both
/// unfixed, a point whose wall clearance is below half their distance, and no
/// larger than the other's, is fixed at its clearance (on equal clearances,
/// `i`); otherwise both grow until they meet halfway.
pub open spec fn candidate(pts: Seq<Seq<u32>>, st: Fixing, i: int, j: int) -> Option<Cand> {
    let d = gap(pts, i, j);
    let wi = wall(pts, i);
    let wj = wall(pts, j);
    if i == j || (st[i] is Some && st[j] is Some) {
        None
    } else if st[i] is Some {
        Some((min_int(2 * d - st[i]->0, wj), j, None))
    } else if st[j] is Some {
        Some((min_int(2 * d - st[j]->0, wi), i, None))
    } else if wi < d && wi <= wj {
        Some((wi, i, None))
    } else if wj < d && wj < wi {
        Some((wj, j, None))
    } else {
        Some((d, i, Some(j)))
    }
}

/// Keeps the earlier proposal unless the new one is strictly smaller.
pub open spec fn pick(acc: Option<Cand>, c: Option<Cand>) -> Option<Cand> {
    match c {
        None => acc,
        Some(c) => match acc {
            None => Some(c),
            Some(a) => if c.0 < a.0 {
                Some(c)
            } else {
                acc
            },
        },
    }
}

/// The smallest proposal among the pairs `(a, b)` with `a < i`, or `a == i`
/// and `b < j`, the first one in that order among equals.
pub open spec fn scan(pts: Seq<Seq<u32>>, st: Fixing, i: nat, j: nat) -> Option<Cand>
    decreases i, j,
{
    if j == 0 {
        if i == 0 {
            None
        } else {
            scan(pts, st, (i - 1) as nat, pts.len())
        }
    } else {
        pick(scan(pts, st, i, (j - 1) as nat), candidate(pts, st, i as int, j - 1))
    }
}

/// The commitment a round makes: the smallest proposal over all pairs.
pub open spec fn best(pts: Seq<Seq<u32>>, st: Fixing) -> Option<Cand> {
    scan(pts, st, pts.len(), 0)
}

pub open spec fn apply(st: Fixing, c: Cand) -> Fixing {
    let s1 = st.update(c.1, Some(c.0));
    match c.2 {
        Some(k) => s1.update(k, Some(c.0)),
        None => s1,
    }
}

pub open spec fn step(pts: Seq<Seq<u32>>, st: Fixing) -> Fixing {
    match best(pts, st) {
        Some(c) => apply(st, c),
        None => st,
    }
}

/// The state after `k` rounds, starting with every point unfixed.
pub open spec fn rounds(pts: Seq<Seq<u32>>, k: nat) -> Fixing
    decreases k,
{
    if k == 0 {
        Seq::new(pts.len(), |i: int| None)
    } else {
        step(pts, rounds(pts, (k - 1) as nat))
    }
}

/// The radii, in half units, that the growth assigns to the points.
pub open spec fn grown(pts: Seq<Seq<u32>>) -> Seq<int> {
    if pts.len() == 1 {
        seq![wall(pts, 0)]
    } else {
        rounds(pts, pts.len()).map_values(
            |o: Option<int>|
                match o {
                    Some(r) => r,
                    None => 0,
                },
        )
    }
}

/// What holds of every state a run passes through.
pub open spec fn good(pts: Seq<Seq<u32>>, st: Fixing) -> bool {
    &&& st.len() == pts.len()
    &&& uniform(pts)
    &&& forall|a: int|
        0 <= a < st.len() && st[a] is Some ==> min_int(0, wall(pts, a)) <= st[a]->0 <= wall(
            pts,
            a,
        )
    &&& forall|a: int, b: int|
        0 <= a < st.len() && 0 <= b < st.len() && a != b && st[a] is Some && st[b] is None
            ==> st[a]->0 <= gap(pts, a, b)
    &&& forall|a: int, b: int|
        0 <= a < st.len() && 0 <= b < st.len() && a != b && st[a] is Some && st[b] is Some
            ==> st[a]->0 + st[b]->0 <= 2 * gap(pts, a, b)
}

pub open spec fn earlier(a: int, b: int, i: int, j: int) -> bool {
    a < i || (a == i && b < j)
}

proof fn lemma_candidate(pts: Seq<Seq<u32>>, st: Fixing, i: int, j: int)
    requires
        good(pts, st),
        0 <= i < pts.len(),
        0 <= j < pts.len(),
        candidate(pts, st, i, j) is Some,
    ensures
        ({
            let c = candidate(pts, st, i, j)->0;
            &&& 0 <= c.1 < pts.len()
            &&& st[c.1] is None
            &&& min_int(0, wall(pts, c.1)) <= c.0 <= wall(pts, c.1)
            &&& c.2 matches Some(k) ==> {
                &&& 0 <= k < pts.len()
                &&& k != c.1
                &&& st[k] is None
                &&& c.0 == gap(pts, c.1, k)
                &&& 0 <= c.0 <= wall(pts, k)
            }
        }),
{
    if st[i] is Some && st[j] is None {
        assert(st[i]->0 <= gap(pts, i, j));
    }
    if st[j] is Some && st[i] is None {
        assert(st[j]->0 <= gap(pts, j, i));
        crate::geometry::lemma_dist_symmetric(pts[i], pts[j]);
    }
}

proof fn lemma_scan(pts: Seq<Seq<u32>>, st: Fixing, i: nat, j: nat)
    requires
        i < pts.len() || (i == pts.len() && j == 0),
        j <= pts.len(),
    ensures
        scan(pts, st, i, j) matches Some(c) ==> exists|a: int, b: int|
            0 <= a < pts.len() && 0 <= b < pts.len() && earlier(a, b, i as int, j as int)
                && candidate(pts, st, a, b) == Some(c),
        forall|a: int, b: int|
            0 <= a < pts.len() && 0 <= b < pts.len() && earlier(a, b, i as int, j as int)
                && #[trigger] candidate(pts, st, a, b) is Some ==> scan(pts, st, i, j) is Some
                && (scan(pts, st, i, j)->0).0 <= (candidate(pts, st, a, b)->0).0,
    decreases i, j,
{
    if j == 0 {
        if i > 0 {
            lemma_scan(pts, st, (i - 1) as nat, pts.len());
            if scan(pts, st, i, j) is Some {
                let (a, b) = choose|a: int, b: int|
                    0 <= a < pts.len() && 0 <= b < pts.len() && earlier(
                        a,
                        b,
                        i - 1,
                        pts.len() as int,
                    ) && candidate(pts, st, a, b) == scan(pts, st, i, j);
                assert(earlier(a, b, i as int, j as int));
            }
            assert forall|a: int, b: int|
                0 <= a < pts.len() && 0 <= b < pts.len() && earlier(a, b, i as int, j as int)
                    implies earlier(a, b, i - 1, pts.len() as int) by {}
        }
    } else {
        lemma_scan(pts, st, i, (j - 1) as nat);
        let acc = scan(pts, st, i, (j - 1) as nat);
        let c = candidate(pts, st, i as int, j - 1);
        if scan(pts, st, i, j) is Some {
            if scan(pts, st, i, j) == acc {
                let (a, b) = choose|a: int, b: int|
                    0 <= a < pts.len() && 0 <= b < pts.len() && earlier(a, b, i as int, j - 1)
                        && candidate(pts, st, a, b) == acc;
                assert(earlier(a, b, i as int, j as int));
            } else {
                assert(earlier(i as int, j - 1, i as int, j as int));
            }
        }
        {
            assert forall|a: int, b: int|
                0 <= a < pts.len() && 0 <= b < pts.len() && earlier(a, b, i as int, j as int)
                    && #[trigger] candidate(pts, st, a, b) is Some implies scan(
                    pts,
                    st,
                    i,
                    j,
                ) is Some && (scan(pts, st, i, j)->0).0 <= (candidate(pts, st, a, b)->0).0 by {
                if !(a == i && b == j - 1) {
                    assert(earlier(a, b, i as int, j - 1));
                }
            }
        }
    }
}

proof fn lemma_gap_symmetric(pts: Seq<Seq<u32>>, a: int, b: int)
    requires
        uniform(pts),
        0 <= a < pts.len(),
        0 <= b < pts.len(),
    ensures
        gap(pts, a, b) == gap(pts, b, a),
{
    crate::geometry::lemma_dist_symmetric(pts[a], pts[b]);
}

/// A round that commits the best proposal keeps the run's invariant.
proof fn lemma_commit(pts: Seq<Seq<u32>>, st: Fixing)
    requires
        good(pts, st),
        best(pts, st) is Some,
    ensures
        good(pts, apply(st, best(pts, st)->0)),
        ({
            let c = best(pts, st)->0;
            &&& 0 <= c.1 < st.len()
            &&& st[c.1] is None
            &&& c.2 matches Some(k) ==> 0 <= k < st.len() && k != c.1 && st[k] is None
        }),
{
    let n = pts.len();
    let c = best(pts, st)->0;
    lemma_scan(pts, st, n, 0);
    let (a0, b0) = choose|a: int, b: int|
        0 <= a < n && 0 <= b < n && earlier(a, b, n as int, 0) && candidate(pts, st, a, b) == Some(
            c,
        );
    lemma_candidate(pts, st, a0, b0);
    let m = c.0;
    let x = c.1;
    let new = apply(st, c);
    let is_new = |a: int| a == x || c.2 == Some(a);
    assert(new.len() == n);
    assert forall|a: int| 0 <= a < n implies (if is_new(a) {
        new[a] == Some(m)
    } else {
        new[a] == st[a]
    }) by {}
    assert forall|a: int, b: int|
        0 <= a < n && 0 <= b < n && a != b && new[a] is Some && new[b] is None implies new[a]->0
        <= gap(pts, a, b) by {
        if is_new(a) {
            assert(earlier(a, b, n as int, 0));
            assert(candidate(pts, st, a, b) is Some);
        }
    }
    assert forall|a: int, b: int|
        0 <= a < n && 0 <= b < n && a != b && new[a] is Some && new[b] is Some implies new[a]->0
        + new[b]->0 <= 2 * gap(pts, a, b) by {
        lemma_gap_symmetric(pts, a, b);
        if is_new(a) && !is_new(b) {
            assert(earlier(b, a, n as int, 0));
            assert(candidate(pts, st, b, a) is Some);
        } else if !is_new(a) && is_new(b) {
            assert(earlier(a, b, n as int, 0));
            assert(candidate(pts, st, a, b) is Some);
        }
    }
}

/// Number of points still unfixed.
pub open spec fn count_unfixed(st: Fixing) -> nat
    decreases st.len(),
{
    if st.len() == 0 {
        0
    } else {
        count_unfixed(st.drop_last()) + if st.last() is None {
            1nat
        } else {
            0nat
        }
    }
}

proof fn lemma_count_bound(st: Fixing)
    ensures
        count_unfixed(st) <= st.len(),
        count_unfixed(st) == 0 <==> forall|i: int| 0 <= i < st.len() ==> st[i] is Some,
    decreases st.len(),
{
    if st.len() > 0 {
        lemma_count_bound(st.drop_last());
        assert forall|i: int| 0 <= i < st.len() - 1 implies st[i] == st.drop_last()[i] by {}
        if forall|i: int| 0 <= i < st.len() ==> st[i] is Some {
            assert(st.last() is Some);
        }
    }
}

proof fn lemma_count_fix(st: Fixing, x: int, r: int)
    requires
        0 <= x < st.len(),
        st[x] is None,
    ensures
        count_unfixed(st.update(x, Some(r))) + 1 == count_unfixed(st),
    decreases st.len(),
{
    let u = st.update(x, Some(r));
    if x == st.len() - 1 {
        assert(u.drop_last() =~= st.drop_last());
    } else {
        lemma_count_fix(st.drop_last(), x, r);
        assert(u.drop_last() =~= st.drop_last().update(x, Some(r)));
    }
}

/// A round with a point still unfixed fixes at least one more.
proof fn lemma_progress(pts: Seq<Seq<u32>>, st: Fixing)
    requires
        good(pts, st),
        pts.len() >= 2,
    ensures
        good(pts, step(pts, st)),
        count_unfixed(st) > 0 ==> count_unfixed(step(pts, st)) < count_unfixed(st),
        count_unfixed(st) == 0 ==> step(pts, st) == st,
{
    let n = pts.len();
    lemma_count_bound(st);
    lemma_scan(pts, st, n, 0);
    if best(pts, st) is Some {
        lemma_commit(pts, st);
        let c = best(pts, st)->0;
        let s1 = st.update(c.1, Some(c.0));
        lemma_count_fix(st, c.1, c.0);
        if let Some(k) = c.2 {
            lemma_count_fix(s1, k, c.0);
        }
    } else if count_unfixed(st) > 0 {
        let x = choose|x: int| 0 <= x < n && st[x] is None;
        let y = if x == 0 {
            1int
        } else {
            0int
        };
        assert(earlier(x, y, n as int, 0));
        assert(candidate(pts, st, x, y) is Some);
    }
}

proof fn lemma_rounds(pts: Seq<Seq<u32>>, k: nat)
    requires
        uniform(pts),
        pts.len() >= 2,
    ensures
        good(pts, rounds(pts, k)),
        count_unfixed(rounds(pts, k)) == 0 || count_unfixed(rounds(pts, k)) + k <= pts.len(),
    decreases k,
{
    if k == 0 {
        lemma_count_bound(rounds(pts, 0));
    } else {
        let prev = rounds(pts, (k - 1) as nat);
        lemma_rounds(pts, (k - 1) as nat);
        lemma_progress(pts, prev);
    }
}

/// After as many rounds as there are points, every point is fixed.
proof fn lemma_all_fixed(pts: Seq<Seq<u32>>)
    requires
        uniform(pts),
        pts.len() >= 2,
    ensures
        good(pts, rounds(pts, pts.len())),
        forall|i: int| 0 <= i < pts.len() ==> rounds(pts, pts.len())[i] is Some,
{
    lemma_rounds(pts, pts.len());
    lemma_count_bound(rounds(pts, pts.len()));
}

proof fn lemma_grown(pts: Seq<Seq<u32>>)
    requires
        uniform(pts),
    ensures
        grown(pts).len() == pts.len(),
        forall|i: int|
            0 <= i < pts.len() ==> min_int(0, wall(pts, i)) <= #[trigger] grown(pts)[i] <= wall(
                pts,
                i,
            ),
        forall|i: int, j: int|
            0 <= i < pts.len() && 0 <= j < pts.len() && i != j ==> #[trigger] grown(pts)[i]
                + #[trigger] grown(pts)[j] <= 2 * gap(pts, i, j),
{
    if pts.len() >= 2 {
        lemma_all_fixed(pts);
    }
}

/// Every ball stays inside the cube: no radius exceeds its centre's wall
/// clearance, and none is below the clearance when that is negative.
pub proof fn lemma_inside_cube(pts: Seq<Seq<u32>>)
    requires
        uniform(pts),
    ensures
        forall|i: int|
            0 <= i < pts.len() ==> #[trigger] grown(pts)[i] <= 2 * clearance(pts[i]) && min_int(
                0,
                2 * clearance(pts[i]),
            ) <= grown(pts)[i],
{
    lemma_grown(pts);
}

/// No two balls overlap: two radii add up to at most the distance of their
/// centres, both the whole-unit distance and the exact Euclidean one.
pub proof fn lemma_no_overlap(pts: Seq<Seq<u32>>)
    requires
        uniform(pts),
    ensures
        forall|i: int, j: int|
            0 <= i < pts.len() && 0 <= j < pts.len() && i != j ==> {
                let s = #[trigger] grown(pts)[i] + #[trigger] grown(pts)[j];
                &&& s <= 2 * dist(pts[i], pts[j])
                &&& s <= 0 || s * s <= 4 * sq_dist(pts[i], pts[j])
            },
{
    lemma_grown(pts);
    assert forall|i: int, j: int|
        0 <= i < pts.len() && 0 <= j < pts.len() && i != j implies {
        let s = #[trigger] grown(pts)[i] + #[trigger] grown(pts)[j];
        s <= 0 || s * s <= 4 * sq_dist(pts[i], pts[j])
    } by {
        let s = grown(pts)[i] + grown(pts)[j];
        let x = sq_dist(pts[i], pts[j]);
        let f = floor_sqrt(x);
        lemma_floor_sqrt(x);
        if s > 0 {
            assert(s * s <= 4 * x) by (nonlinear_arith)
                requires
                    0 < s <= 2 * f,
                    f * f <= x,
            ;
        }
    }
}

/// There is one radius per point, and with every coordinate inside the cube
/// none is negative.
pub proof fn lemma_radii_nonnegative(pts: Seq<Seq<u32>>)
    requires
        uniform(pts),
        forall|i: int, k: int| 0 <= i < pts.len() && 0 <= k < pts[i].len() ==> pts[i][k] <= UNIT,
    ensures
        grown(pts).len() == pts.len(),
        forall|i: int| 0 <= i < pts.len() ==> #[trigger] grown(pts)[i] >= 0,
{
    lemma_grown(pts);
    assert forall|i: int| 0 <= i < pts.len() implies #[trigger] grown(pts)[i] >= 0 by {
        lemma_clearance_nonnegative(pts[i]);
    }
}

/// The growth is a function of the points alone: equal point sets get equal radii.
pub proof fn lemma_deterministic(pts1: Seq<Seq<u32>>, pts2: Seq<Seq<u32>>)
    requires
        pts1 == pts2,
    ensures
        grown(pts1) == grown(pts2),
{
}

/// Radii of a growth run, one per point in the points' order, in half units:
/// a radius `r` stands for `r / (2 * UNIT)`.
pub struct Radii(Vec<i64>);

impl View for Radii {
    type V = Seq<int>;

    closed spec fn view(&self) -> Seq<int> {
        self.0@.map_values(|r: i64| r as int)
    }
}

impl Radii {
    pub fn len(&self) -> (r: usize)
        ensures
            r == self@.len(),
    {
        self.0.len()
    }

    pub fn radius(&self, i: usize) -> (r: i64)
        requires
            i < self@.len(),
        ensures
            r == self@[i as int],
    {
        self.0[i]
    }

    pub fn to_vec(&self) -> (r: Vec<i64>)
        ensures
            r@.map_values(|x: i64| x as int) == self@,
    {
        self.0.clone()
    }
}

/// A commitment as the engine carries it.
#[derive(Clone, Copy)]
struct Commit {
    radius: i64,
    first: usize,
    second: Option<usize>,
}

spec fn commit_model(c: Option<Commit>) -> Option<Cand> {
    match c {
        None => None,
        Some(c) => Some(
            (
                c.radius as int,
                c.first as int,
                match c.second {
                    Some(k) => Some(k as int),
                    None => None,
                },
            ),
        ),
    }
}

spec fn fixing_of(v: Seq<Option<i64>>) -> Fixing {
    v.map_values(
        |o: Option<i64>|
            match o {
                Some(r) => Some(r as int),
                None => None,
            },
    )
}

/// What the ordered pair `(i, j)` proposes.
fn propose(points: &Points, state: &Vec<Option<i64>>, i: usize, j: usize) -> (r: Option<Commit>)
    requires
        good(points@, fixing_of(state@)),
        i < points@.len(),
        j < points@.len(),
    ensures
        commit_model(r) == candidate(points@, fixing_of(state@), i as int, j as int),
{
    let ghost pts = points@;
    let ghost st = fixing_of(state@);
    if i == j {
        return None;
    }
    let fixed_i = state[i];
    let fixed_j = state[j];
    if fixed_i.is_some() && fixed_j.is_some() {
        return None;
    }
    let point_i = points.point(i);
    let point_j = points.point(j);
    proof {
        assert(pts[i as int].len() == pts[j as int].len());
        lemma_clearance_bounds(pts[i as int]);
        lemma_clearance_bounds(pts[j as int]);
        lemma_gap_symmetric(pts, i as int, j as int);
    }
    let d = distance(point_i, point_j);
    let wall_i = 2 * max_radius(point_i);
    let wall_j = 2 * max_radius(point_j);
    let d_wide = d as i128;
    if let Some(r_i) = fixed_i {
        let v = 2 * d_wide - r_i as i128;
        let radius = if v <= wall_j as i128 {
            v as i64
        } else {
            wall_j
        };
        Some(Commit { radius, first: j, second: None })
    } else if let Some(r_j) = fixed_j {
        let v = 2 * d_wide - r_j as i128;
        let radius = if v <= wall_i as i128 {
            v as i64
        } else {
            wall_i
        };
        Some(Commit { radius, first: i, second: None })
    } else if (wall_i as i128) < d_wide && wall_i <= wall_j {
        Some(Commit { radius: wall_i, first: i, second: None })
    } else if (wall_j as i128) < d_wide && wall_j < wall_i {
        Some(Commit { radius: wall_j, first: j, second: None })
    } else {
        Some(Commit { radius: d as i64, first: i, second: Some(j) })
    }
}

/// The round's commitment: the smallest proposal, the first among equals in
/// the order of the pairs.
fn best_commit(points: &Points, state: &Vec<Option<i64>>) -> (r: Option<Commit>)
    requires
        good(points@, fixing_of(state@)),
    ensures
        commit_model(r) == best(points@, fixing_of(state@)),
{
    let ghost pts = points@;
    let ghost st = fixing_of(state@);
    let n = points.len();
    let mut acc: Option<Commit> = None;
    let mut i: usize = 0;
    while i < n
        invariant
            i <= n,
            n == pts.len(),
            pts == points@,
            st == fixing_of(state@),
            good(pts, st),
            commit_model(acc) == scan(pts, st, i as nat, 0),
        decreases n - i,
    {
        let mut j: usize = 0;
        while j < n
            invariant
                j <= n,
                i < n,
                n == pts.len(),
                pts == points@,
                st == fixing_of(state@),
                good(pts, st),
                commit_model(acc) == scan(pts, st, i as nat, j as nat),
            decreases n - j,
        {
            let c = propose(points, state, i, j);
            if let Some(c) = c {
                match acc {
                    None => {
                        acc = Some(c);
                    },
                    Some(a) => {
                        if c.radius < a.radius {
                            acc = Some(c);
                        }
                    },
                }
            }
            j = j + 1;
        }
        assert(scan(pts, st, (i + 1) as nat, 0) == scan(pts, st, i as nat, n as nat));
        i = i + 1;
    }
    acc
}

/// Grows a ball around every point until it meets the cube's boundary or
/// another ball, committing the smallest pending radius first.
pub fn growth_maximal_system_of_non_overlapping_balls(points: &Points) -> (r: Radii)
    ensures
        r@ == grown(points@),
{
    let ghost pts = points@;
    let n = points.len();
    if n == 1 {
        proof {
            lemma_clearance_bounds(pts[0]);
        }
        let w = 2 * max_radius(points.point(0));
        let v = vec![w];
        assert(Radii(v)@ =~= grown(pts));
        return Radii(v);
    }
    let mut state: Vec<Option<i64>> = Vec::new();
    let mut k: usize = 0;
    while k < n
        invariant
            k <= n,
            state@.len() == k,
            forall|a: int| 0 <= a < k ==> state@[a] is None,
        decreases n - k,
    {
        state.push(None);
        k = k + 1;
    }
    assert(fixing_of(state@) =~= rounds(pts, 0));
    let mut round: usize = 0;
    while round < n
        invariant
            round <= n,
            n == pts.len(),
            n != 1,
            pts == points@,
            uniform(pts),
            fixing_of(state@) == rounds(pts, round as nat),
        decreases n - round,
    {
        let ghost st = fixing_of(state@);
        proof {
            lemma_rounds(pts, round as nat);
        }
        let b = best_commit(points, &state);
        if let Some(c) = b {
            proof {
                lemma_commit(pts, st);
            }
            state.set(c.first, Some(c.radius));
            if let Some(second) = c.second {
                state.set(second, Some(c.radius));
            }
        }
        assert(fixing_of(state@) =~= rounds(pts, (round + 1) as nat));
        round = round + 1;
    }
    proof {
        if n >= 2 {
            lemma_all_fixed(pts);
        }
    }
    let mut out: Vec<i64> = Vec::new();
    let mut i: usize = 0;
    while i < n
        invariant
            i <= n,
            n == pts.len(),
            n != 1,
            state@.len() == n,
            fixing_of(state@) == rounds(pts, n as nat),
            out@.len() == i,
            forall|a: int| 0 <= a < i ==> out@[a] as int == grown(pts)[a],
        decreases n - i,
    {
        let r = match state[i] {
            Some(r) => r,
            None => 0,
        };
        out.push(r);
        i = i + 1;
    }
    assert(Radii(out)@ =~= grown(pts));
    Radii(out)
}

} // verus!
