use inkdrop::point::Point;
use inkdrop::tsp::{
    make_nn_tour, nearest_index, optimize, optimize_two_opt_tour, total_distance, Improvement,
};

fn square_crossed() -> Vec<Point> {
    vec![Point::new(0, 0), Point::new(1000, 1000), Point::new(1000, 0), Point::new(0, 1000)]
}

fn sorted(mut points: Vec<Point>) -> Vec<(i32, i32)> {
    let mut pairs: Vec<(i32, i32)> = points.drain(..).map(|p| (p.x, p.y)).collect();
    pairs.sort();
    pairs
}

#[test]
fn distances_are_rounded_to_the_nearest_unit() {
    assert_eq!(Point::new(0, 0).distance(&Point::new(300_000, 400_000)), 500_000);
    assert_eq!(Point::new(0, 0).distance(&Point::new(1000, 1000)), 1414);
    assert_eq!(Point::new(0, 0).distance(&Point::new(1, 1)), 1);
    assert_eq!(Point::new(0, 0).distance(&Point::new(2, 2)), 3);
    assert_eq!(Point::new(5, 5).distance(&Point::new(5, 5)), 0);
    assert_eq!(Point::new(-7, 2).distance(&Point::new(1, 2)), 8);
    assert_eq!(Point::new(0, 0).distance_squared(&Point::new(300, 400)), 250_000);
}

#[test]
fn distances_between_the_farthest_points_do_not_overflow() {
    let a = Point::new(i32::MIN, i32::MIN);
    let b = Point::new(i32::MAX, i32::MAX);
    assert_eq!(a.distance_squared(&b), 2 * (0xffff_ffffu128 * 0xffff_ffffu128));
    // 4294967295 * sqrt(2), rounded
    assert_eq!(a.distance(&b), 6_074_000_999);
    assert_eq!(b.distance(&a), 6_074_000_999);
}

#[test]
fn total_distance_adds_up_the_edges() {
    assert_eq!(total_distance(&vec![]), 0);
    assert_eq!(total_distance(&vec![Point::new(3, 4)]), 0);
    assert_eq!(total_distance(&square_crossed()), 1414 + 1000 + 1414);
}

#[test]
fn nearest_neighbour_tour_on_a_line() {
    let points = vec![Point::new(0, 0), Point::new(30, 0), Point::new(10, 0), Point::new(20, 0)];
    let tour = make_nn_tour(points);
    assert_eq!(
        tour,
        vec![Point::new(0, 0), Point::new(10, 0), Point::new(20, 0), Point::new(30, 0)]
    );
}

#[test]
fn nearest_neighbour_tour_starts_at_the_first_point() {
    let points = vec![Point::new(50, 0), Point::new(0, 0), Point::new(100, 0), Point::new(70, 0)];
    let tour = make_nn_tour(points);
    assert_eq!(
        tour,
        vec![Point::new(50, 0), Point::new(70, 0), Point::new(100, 0), Point::new(0, 0)]
    );
}

#[test]
fn nearest_neighbour_tour_takes_the_first_of_equally_near_points() {
    let points = vec![Point::new(0, 0), Point::new(0, 10), Point::new(10, 0), Point::new(-10, 0)];
    assert_eq!(nearest_index(&Point::new(0, 0), &points[1..].to_vec()), 0);
    let tour = make_nn_tour(points);
    assert_eq!(
        tour,
        vec![Point::new(0, 0), Point::new(0, 10), Point::new(10, 0), Point::new(-10, 0)]
    );
}

#[test]
fn nearest_neighbour_tour_tells_apart_distances_that_round_alike() {
    // both are 10 units away after rounding, the second is nearer
    let points = vec![Point::new(0, 0), Point::new(10, 2), Point::new(10, 1)];
    assert_eq!(
        make_nn_tour(points),
        vec![Point::new(0, 0), Point::new(10, 1), Point::new(10, 2)]
    );
}

#[test]
fn nearest_neighbour_tour_visits_every_point_once() {
    let mut points = Vec::new();
    let mut seed: u32 = 12345;
    for _ in 0..200 {
        seed = seed.wrapping_mul(1_103_515_245).wrapping_add(12345);
        let x = (seed >> 8) as i32 % 1000;
        seed = seed.wrapping_mul(1_103_515_245).wrapping_add(12345);
        let y = (seed >> 8) as i32 % 1000;
        points.push(Point::new(x, y));
    }
    points.push(points[17]);
    let tour = make_nn_tour(points.clone());
    assert_eq!(tour.len(), points.len());
    assert_eq!(tour[0], points[0]);
    assert_eq!(sorted(tour.clone()), sorted(points));
    for i in 1..tour.len() {
        for j in i..tour.len() {
            assert!(
                tour[i - 1].distance_squared(&tour[i]) <= tour[i - 1].distance_squared(&tour[j])
            );
        }
    }
}

#[test]
fn nearest_neighbour_tour_of_few_points() {
    assert_eq!(make_nn_tour(vec![]), vec![]);
    assert_eq!(make_nn_tour(vec![Point::new(4, 2)]), vec![Point::new(4, 2)]);
    assert_eq!(
        make_nn_tour(vec![Point::new(4, 2), Point::new(-4, 9)]),
        vec![Point::new(4, 2), Point::new(-4, 9)]
    );
}

#[test]
fn a_pass_uncrosses_two_edges() {
    let (tour, improvement) = optimize_two_opt_tour(square_crossed());
    assert_eq!(
        tour,
        vec![Point::new(0, 0), Point::new(1000, 0), Point::new(1000, 1000), Point::new(0, 1000)]
    );
    assert_eq!(improvement, Improvement { saved: 828, before: 3828 });
    assert_eq!(total_distance(&tour), 3000);
}

#[test]
fn a_pass_looks_at_the_last_edge_too() {
    // only the pair of the second and the last edge can be improved
    let tour = vec![
        Point::new(0, 0),
        Point::new(0, 1000),
        Point::new(1000, 0),
        Point::new(1000, 1000),
        Point::new(2000, 0),
    ];
    let (better, improvement) = optimize_two_opt_tour(tour.clone());
    assert!(improvement.saved > 0);
    assert_eq!(improvement.before, total_distance(&tour));
    assert_eq!(improvement.before - improvement.saved, total_distance(&better));
    assert_eq!(better[0], tour[0]);
    assert_eq!(better[4], tour[4]);
    assert_eq!(sorted(better), sorted(tour));
}

#[test]
fn a_pass_builds_on_what_it_has_changed() {
    let tour = vec![
        Point::new(0, 0),
        Point::new(3000, 100),
        Point::new(1000, 0),
        Point::new(2000, 100),
        Point::new(4000, 0),
        Point::new(5000, 0),
    ];
    let (better, improvement) = optimize_two_opt_tour(tour.clone());
    assert_eq!(
        better,
        vec![
            Point::new(0, 0),
            Point::new(1000, 0),
            Point::new(2000, 100),
            Point::new(3000, 100),
            Point::new(4000, 0),
            Point::new(5000, 0),
        ]
    );
    assert_eq!(improvement.before, total_distance(&tour));
    assert_eq!(improvement.before - improvement.saved, total_distance(&better));
}

#[test]
fn short_tours_are_returned_unchanged() {
    assert_eq!(optimize_two_opt_tour(vec![]), (vec![], Improvement { saved: 0, before: 0 }));
    let one = vec![Point::new(7, 7)];
    assert_eq!(optimize_two_opt_tour(one.clone()), (one.clone(), Improvement { saved: 0, before: 0 }));
    let two = vec![Point::new(0, 0), Point::new(3, 4)];
    assert_eq!(optimize_two_opt_tour(two.clone()), (two.clone(), Improvement { saved: 0, before: 5 }));
    assert_eq!(optimize(vec![], 0), vec![]);
    assert_eq!(optimize(one.clone(), 0), one);
    assert_eq!(optimize(two.clone(), 10_000), two);
}

#[test]
fn tours_of_points_in_one_place_are_returned_unchanged() {
    let tour = vec![Point::new(1, 1); 5];
    assert_eq!(optimize(tour.clone(), 0), tour);
}

#[test]
fn optimizing_never_lengthens_a_tour() {
    let mut points = Vec::new();
    let mut seed: u32 = 99;
    for _ in 0..120 {
        seed = seed.wrapping_mul(1_664_525).wrapping_add(1_013_904_223);
        let x = (seed >> 10) as i32 % 5000;
        seed = seed.wrapping_mul(1_664_525).wrapping_add(1_013_904_223);
        let y = (seed >> 10) as i32 % 5000;
        points.push(Point::new(x, y));
    }
    let before = total_distance(&points);
    for criteria in [0u32, 1, 10_000, 500_000, 1_000_000, u32::MAX] {
        let tour = optimize(points.clone(), criteria);
        assert!(total_distance(&tour) <= before);
        assert_eq!(sorted(tour.clone()), sorted(points.clone()));
        assert_eq!(tour[0], points[0]);
        assert_eq!(tour[119], points[119]);
    }
    // with no criteria the passes go on until one of them changes nothing
    let settled = optimize(points.clone(), 0);
    let (again, improvement) = optimize_two_opt_tour(settled.clone());
    assert_eq!(improvement.saved, 0);
    assert_eq!(again, settled);
}

#[test]
fn optimizing_stops_after_a_pass_that_saves_no_more_than_the_criteria() {
    // the one pass saves 828 of 3828, which is 216 300 millionths and a bit
    let one_pass = optimize_two_opt_tour(square_crossed()).0;
    assert_eq!(optimize(square_crossed(), 216_301), one_pass);
    assert_eq!(optimize(square_crossed(), 1_000_000), one_pass);
    // a criteria below that asks for a second pass, which finds nothing
    assert_eq!(optimize(square_crossed(), 216_300), one_pass);
    assert_eq!(optimize(square_crossed(), 0), one_pass);
}
