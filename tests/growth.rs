use lilypond_simulation::{
    growth_maximal_system_of_non_overlapping_balls, random_points, Point, Points, Radii, UNIT,
};
use lilypond_simulation::geometry::{distance, max_radius};

fn points_of(coords: &[&[u32]]) -> Vec<Point> {
    coords.iter().map(|c| Point::new(c.to_vec())).collect()
}

fn grow(points: &Vec<Point>) -> Vec<i64> {
    let set = Points::new(points).expect("points of one dimension");
    growth_maximal_system_of_non_overlapping_balls(&set).to_vec()
}

fn sq_dist(p: &Point, q: &Point) -> i128 {
    (0..p.dimension())
        .map(|k| {
            let d = p.coordinate(k) as i128 - q.coordinate(k) as i128;
            d * d
        })
        .sum()
}

#[test]
fn empty_point_set_gives_no_radii() {
    let points: Vec<Point> = Vec::new();
    assert_eq!(grow(&points), Vec::<i64>::new());
}

#[test]
fn single_centre_point_fills_square() {
    let points = points_of(&[&[500_000, 500_000]]);
    // 0.5 in half units
    assert_eq!(grow(&points), vec![1_000_000]);
}

#[test]
fn boundary_limited_pair_keeps_wall_clearances() {
    let points = points_of(&[&[200_000], &[800_000]]);
    // 0.2 and 0.2
    assert_eq!(grow(&points), vec![400_000, 400_000]);
}

#[test]
fn close_pair_meets_halfway() {
    let points = points_of(&[&[450_000], &[550_000]]);
    // 0.05 and 0.05
    assert_eq!(grow(&points), vec![100_000, 100_000]);
}

#[test]
fn fixed_neighbour_limits_later_ball() {
    let points = points_of(&[&[500_000], &[600_000], &[620_000]]);
    // the two close points meet at 0.01, then the centre ball grows to 0.09
    assert_eq!(grow(&points), vec![180_000, 20_000, 20_000]);
}

#[test]
fn equal_proposals_go_to_first_pair() {
    let points = points_of(&[&[100_000], &[300_000], &[900_000]]);
    assert_eq!(grow(&points), vec![200_000, 200_000, 200_000]);
}

#[test]
fn coincident_points_get_zero_radius() {
    let points = points_of(&[&[300_000, 300_000], &[300_000, 300_000]]);
    assert_eq!(grow(&points), vec![0, 0]);
}

#[test]
fn point_outside_cube_gets_negative_radius() {
    let points = points_of(&[&[1_200_000]]);
    assert_eq!(grow(&points), vec![-400_000]);
}

#[test]
fn growth_is_deterministic() {
    let points = points_of(&[&[120_000, 700_000], &[640_000, 310_000], &[500_000, 520_000]]);
    assert_eq!(grow(&points), grow(&points));
}

#[test]
fn random_run_is_valid_packing() {
    let points = random_points(3, 25);
    assert_eq!(points.len(), 25);
    let set = Points::new(&points).expect("points of one dimension");
    let radii: Radii = growth_maximal_system_of_non_overlapping_balls(&set);
    assert_eq!(radii.len(), 25);
    for i in 0..radii.len() {
        let r = radii.radius(i);
        assert!(r >= 0);
        assert!(r <= 2 * max_radius(&points[i]));
        for j in 0..radii.len() {
            if i != j {
                let s = (r + radii.radius(j)) as i128;
                assert!(s * s <= 4 * sq_dist(&points[i], &points[j]));
            }
        }
    }
}

#[test]
fn random_points_stay_on_grid() {
    let points = random_points(4, 50);
    assert_eq!(points.len(), 50);
    for p in &points {
        assert_eq!(p.dimension(), 4);
        for k in 0..4 {
            assert!(p.coordinate(k) <= UNIT);
        }
    }
    assert!(points.iter().any(|p| (0..4).any(|k| p.coordinate(k) != 0)));
}

#[test]
fn mismatched_dimensions_are_rejected() {
    let points = points_of(&[&[100_000, 200_000], &[300_000]]);
    assert!(Points::new(&points).is_none());
}

#[test]
fn zero_dimensional_points_are_rejected() {
    let points = points_of(&[&[]]);
    assert!(Points::new(&points).is_none());
}

#[test]
fn distance_is_euclidean_rounded_down() {
    let a = Point::new(vec![0, 0]);
    let b = Point::new(vec![300_000, 400_000]);
    assert_eq!(distance(&a, &b), 500_000);
    let c = Point::new(vec![1, 1]);
    assert_eq!(distance(&a, &c), 1);
    let far = Point::new(vec![u32::MAX, u32::MAX]);
    assert_eq!(distance(&a, &far), 6_074_000_998);
}

#[test]
fn wall_clearance_takes_nearest_face() {
    assert_eq!(max_radius(&Point::new(vec![100_000, 950_000])), 50_000);
    assert_eq!(max_radius(&Point::new(vec![500_000])), 500_000);
    assert_eq!(max_radius(&Point::new(vec![1_300_000, 500_000])), -300_000);
}
