use across::collisions::{
    in_view, line_circle_collision, line_line_collision, line_sector_collision,
    point_circle_collision, point_in_sector, point_sector_collision, quadratic,
    sector_collisions, simultaneous_equations, LineCircleCollision, QuadraticSolution,
};
use across::tower::shortest_angle_distance;
use across::vector::{Vector, FULL_TURN, HALF_TURN};

const QUARTER_TURN: i64 = 324_000;

fn bearing_of(v: Vector) -> i64 {
    let radians = (v.y as f64).atan2(v.x as f64);
    (radians / std::f64::consts::PI * HALF_TURN as f64).round() as i64
}

fn from_polar(angle: i64, length: u32) -> Vector {
    let radians = angle as f64 / HALF_TURN as f64 * std::f64::consts::PI;
    Vector::new(
        (length as f64 * radians.cos()).round() as i32,
        (length as f64 * radians.sin()).round() as i32,
    )
}

fn same_points(found: Vec<Vector>, expected: Vec<Vector>) -> bool {
    found.len() == expected.len()
        && found.iter().all(|p| expected.contains(p))
        && expected.iter().all(|p| found.contains(p))
}

#[test]
fn point_in_on_and_outside_a_circle() {
    let centre = Vector::new(1, 1);
    assert_eq!(point_circle_collision(centre, 5, Vector::new(2, 3)), Some(Vector::new(2, 3)));
    assert_eq!(point_circle_collision(centre, 5, Vector::new(4, 5)), Some(Vector::new(4, 5)));
    assert_eq!(point_circle_collision(centre, 5, Vector::new(5, 5)), None);
    assert_eq!(point_circle_collision(centre, 0, centre), Some(centre));
}

#[test]
fn point_circle_test_is_exact_at_the_edge_of_the_range() {
    let centre = Vector::new(i32::MIN, i32::MIN);
    let far = Vector::new(i32::MAX, i32::MAX);
    assert_eq!(point_circle_collision(centre, u32::MAX, far), None);
    assert_eq!(
        point_circle_collision(centre, u32::MAX, Vector::new(i32::MAX, i32::MIN)),
        Some(Vector::new(i32::MAX, i32::MIN))
    );
}

#[test]
fn quadratic_with_two_roots() {
    assert_eq!(quadratic(1, 0, -4), QuadraticSolution::Roots(2, -2));
    assert_eq!(quadratic(1, -5, 6), QuadraticSolution::Roots(3, 2));
    assert_eq!(quadratic(-1, 0, 4), QuadraticSolution::Roots(-2, 2));
    assert_eq!(quadratic(1, 0, -4).into_vec(), vec![2, -2]);
}

#[test]
fn quadratic_with_a_repeated_root() {
    assert_eq!(quadratic(1, -4, 4), QuadraticSolution::RepeatedRoot(2));
    assert_eq!(quadratic(1, 0, 0), QuadraticSolution::RepeatedRoot(0));
}

#[test]
fn quadratic_without_roots() {
    assert_eq!(quadratic(1, 0, 4), QuadraticSolution::NoRoots);
    assert_eq!(quadratic(1, 0, 4).into_vec(), Vec::<i128>::new());
}

#[test]
fn quadratic_rounds_roots_down() {
    // x² - 2 = 0: the roots are ±1.41..., the root of the discriminant 8 is 2.82...
    assert_eq!(quadratic(1, 0, -2), QuadraticSolution::Roots(1, -1));
    // 2x² - 3x - 1 = 0: roots 1.78... and -0.28...
    assert_eq!(quadratic(2, -3, -1), QuadraticSolution::Roots(1, -1));
}

#[test]
fn secant_crosses_the_circle_twice() {
    let hit = line_circle_collision(Vector::new(0, 0), 5, Vector::new(-10, 0), Vector::new(10, 0));
    assert!(same_points(hit.into_vec(), vec![Vector::new(-5, 0), Vector::new(5, 0)]));
    assert_eq!(hit, LineCircleCollision::Two(Vector::new(5, 0), Vector::new(-5, 0)));
}

#[test]
fn secant_does_not_depend_on_the_order_of_its_ends() {
    let hit = line_circle_collision(Vector::new(0, 0), 5, Vector::new(10, 0), Vector::new(-10, 0));
    assert!(same_points(hit.into_vec(), vec![Vector::new(-5, 0), Vector::new(5, 0)]));
}

#[test]
fn segment_outside_the_circle_misses_it() {
    let centre = Vector::new(0, 0);
    let hit = line_circle_collision(centre, 5, Vector::new(-10, 8), Vector::new(10, 8));
    assert_eq!(hit, LineCircleCollision::Zero);
    // the line crosses the circle, the segment ends before it
    let hit = line_circle_collision(centre, 5, Vector::new(-20, 0), Vector::new(-10, 0));
    assert_eq!(hit, LineCircleCollision::Zero);
    let hit = line_circle_collision(centre, 5, Vector::new(0, 10), Vector::new(0, 20));
    assert_eq!(hit, LineCircleCollision::Zero);
}

#[test]
fn segment_that_ends_just_outside_the_circle_misses_it() {
    let centre = Vector::new(0, 0);
    // the line crosses the circle above -4.89..., which rounds down to -5
    let hit = line_circle_collision(centre, 5, Vector::new(-20, 1), Vector::new(-5, 1));
    assert_eq!(hit, LineCircleCollision::Zero);
    let hit = line_circle_collision(centre, 5, Vector::new(5, 1), Vector::new(20, 1));
    assert_eq!(hit, LineCircleCollision::Zero);
    let hit = line_circle_collision(centre, 5, Vector::new(1, 5), Vector::new(1, 20));
    assert_eq!(hit, LineCircleCollision::Zero);
    let hit = line_circle_collision(centre, 5, Vector::new(1, -20), Vector::new(1, -5));
    assert_eq!(hit, LineCircleCollision::Zero);
    // and a segment that reaches just into the circle meets it
    let hit = line_circle_collision(centre, 5, Vector::new(-20, 1), Vector::new(-4, 1));
    assert_eq!(hit, LineCircleCollision::Two(Vector::new(-4, 1), Vector::new(-5, 1)));
    // the crossing beside 4.89... is rounded down to the end of the segment
    let hit = line_circle_collision(centre, 5, Vector::new(1, 4), Vector::new(1, 20));
    assert_eq!(hit, LineCircleCollision::One(Vector::new(1, 4)));
}

#[test]
fn crossings_on_a_slanted_line_are_counted_exactly() {
    let centre = Vector::new(0, 0);
    // the line from (-7, -1) to (7, 1) crosses the circle of radius 5 above
    // x = ±4.94...
    let hit = line_circle_collision(centre, 5, Vector::new(-7, -1), Vector::new(7, 1));
    assert_eq!(hit.into_vec().len(), 2);
    assert!(same_points(hit.into_vec(), vec![Vector::new(4, 0), Vector::new(-5, -1)]));
    let hit = line_circle_collision(centre, 5, Vector::new(-21, -3), Vector::new(-7, -1));
    assert_eq!(hit, LineCircleCollision::Zero);
    let hit = line_circle_collision(centre, 5, Vector::new(-21, -3), Vector::new(0, 0));
    assert_eq!(hit, LineCircleCollision::Two(Vector::new(0, 0), Vector::new(-5, -1)));
}

#[test]
fn segment_in_the_circle_meets_it_in_its_ends() {
    let hit = line_circle_collision(Vector::new(0, 0), 5, Vector::new(-1, 0), Vector::new(1, 0));
    assert_eq!(hit, LineCircleCollision::Two(Vector::new(-1, 0), Vector::new(1, 0)));
    let hit = line_circle_collision(Vector::new(0, 0), 5, Vector::new(0, -2), Vector::new(0, 3));
    assert_eq!(hit, LineCircleCollision::Two(Vector::new(0, -2), Vector::new(0, 3)));
}

#[test]
fn tangent_touches_the_circle_once() {
    let hit = line_circle_collision(Vector::new(0, 0), 5, Vector::new(-10, 5), Vector::new(10, 5));
    assert_eq!(hit, LineCircleCollision::One(Vector::new(0, 5)));
    let hit = line_circle_collision(Vector::new(0, 0), 5, Vector::new(5, -10), Vector::new(5, 10));
    assert_eq!(hit, LineCircleCollision::One(Vector::new(5, 0)));
}

#[test]
fn segment_that_ends_in_the_circle_meets_it_twice() {
    let hit = line_circle_collision(Vector::new(0, 0), 5, Vector::new(0, 0), Vector::new(10, 0));
    assert_eq!(hit, LineCircleCollision::Two(Vector::new(0, 0), Vector::new(5, 0)));
    let hit = line_circle_collision(Vector::new(0, 0), 5, Vector::new(0, 10), Vector::new(0, 0));
    assert_eq!(hit, LineCircleCollision::Two(Vector::new(0, 0), Vector::new(0, 5)));
}

#[test]
fn segment_that_ends_on_the_circle_is_not_counted_twice() {
    let hit = line_circle_collision(Vector::new(0, 0), 5, Vector::new(-5, 0), Vector::new(5, 0));
    assert_eq!(hit, LineCircleCollision::Two(Vector::new(-5, 0), Vector::new(5, 0)));
    let hit = line_circle_collision(Vector::new(0, 0), 5, Vector::new(0, 5), Vector::new(0, -5));
    assert_eq!(hit, LineCircleCollision::Two(Vector::new(0, 5), Vector::new(0, -5)));
}

#[test]
fn upright_secant_crosses_the_circle_twice() {
    let hit = line_circle_collision(Vector::new(3, 4), 5, Vector::new(3, -10), Vector::new(3, 20));
    assert!(same_points(hit.into_vec(), vec![Vector::new(3, 9), Vector::new(3, -1)]));
}

#[test]
fn slanted_secant_crosses_the_circle_twice() {
    let hit =
        line_circle_collision(Vector::new(0, 0), 50, Vector::new(-60, -80), Vector::new(60, 80));
    assert!(same_points(hit.into_vec(), vec![Vector::new(30, 40), Vector::new(-30, -40)]));
}

#[test]
fn point_as_a_segment() {
    let p = Vector::new(1, 1);
    assert_eq!(line_circle_collision(Vector::new(0, 0), 5, p, p), LineCircleCollision::One(p));
    let q = Vector::new(9, 9);
    assert_eq!(line_circle_collision(Vector::new(0, 0), 5, q, q), LineCircleCollision::Zero);
}

#[test]
fn circle_far_from_the_origin() {
    let centre = Vector::new(262_144, -262_144);
    let hit = line_circle_collision(
        centre,
        524_288,
        Vector::new(-262_144, -262_144),
        Vector::new(262_144, -262_144),
    );
    assert_eq!(
        hit,
        LineCircleCollision::Two(Vector::new(-262_144, -262_144), Vector::new(262_144, -262_144))
    );
    let hit = line_circle_collision(
        centre,
        100,
        Vector::new(-262_144, 262_144),
        Vector::new(262_144, -262_000),
    );
    assert_eq!(hit, LineCircleCollision::Zero);
    let hit = line_circle_collision(centre, 100, Vector::new(-262_144, 262_144), centre);
    assert_eq!(hit, LineCircleCollision::Two(centre, Vector::new(262_073, -262_073)));
}

#[test]
fn collision_from_a_list_of_points() {
    let p = Vector::new(1, 2);
    let q = Vector::new(3, 4);
    assert_eq!(LineCircleCollision::from_vec(vec![]), Some(LineCircleCollision::Zero));
    assert_eq!(LineCircleCollision::from_vec(vec![p]), Some(LineCircleCollision::One(p)));
    assert_eq!(LineCircleCollision::from_vec(vec![p, q]), Some(LineCircleCollision::Two(p, q)));
    assert_eq!(LineCircleCollision::from_vec(vec![p, q, p]), None);
    assert_eq!(LineCircleCollision::Two(p, q).into_vec(), vec![p, q]);
    assert_eq!(LineCircleCollision::Zero.into_vec(), vec![]);
}

#[test]
fn system_of_two_equations() {
    // x + y = 3, x - y = 1: x = 2, y = 1
    let (x, y, denominator) = simultaneous_equations(1, 1, 3, 1, -1, 1).unwrap();
    assert_eq!((x / denominator, y / denominator), (2, 1));
    assert_eq!((x % denominator, y % denominator), (0, 0));
    // parallel lines
    assert_eq!(simultaneous_equations(1, 2, 3, 2, 4, 7), None);
}

#[test]
fn segments_that_cross() {
    let hit = line_line_collision(
        Vector::new(0, 0),
        Vector::new(10, 10),
        Vector::new(0, 10),
        Vector::new(10, 0),
    );
    assert_eq!(hit, Some(Vector::new(5, 5)));
    let hit = line_line_collision(
        Vector::new(0, 5),
        Vector::new(10, 5),
        Vector::new(5, 0),
        Vector::new(5, 10),
    );
    assert_eq!(hit, Some(Vector::new(5, 5)));
    let hit = line_line_collision(
        Vector::new(5, 0),
        Vector::new(5, 10),
        Vector::new(10, 5),
        Vector::new(0, 5),
    );
    assert_eq!(hit, Some(Vector::new(5, 5)));
}

#[test]
fn segments_that_touch_at_an_end() {
    let hit = line_line_collision(
        Vector::new(0, 0),
        Vector::new(10, 0),
        Vector::new(10, 0),
        Vector::new(10, 10),
    );
    assert_eq!(hit, Some(Vector::new(10, 0)));
}

#[test]
fn segments_that_miss() {
    let hit = line_line_collision(
        Vector::new(0, 0),
        Vector::new(4, 4),
        Vector::new(0, 10),
        Vector::new(10, 0),
    );
    assert_eq!(hit, None);
    let hit = line_line_collision(
        Vector::new(0, 0),
        Vector::new(10, 0),
        Vector::new(0, 1),
        Vector::new(10, 1),
    );
    assert_eq!(hit, None);
    let hit = line_line_collision(
        Vector::new(0, 0),
        Vector::new(10, 0),
        Vector::new(5, 0),
        Vector::new(15, 0),
    );
    assert_eq!(hit, None);
}

#[test]
fn segment_without_length_meets_nothing() {
    let p = Vector::new(5, 5);
    assert_eq!(line_line_collision(p, p, Vector::new(0, 0), Vector::new(10, 10)), None);
    assert_eq!(line_line_collision(Vector::new(0, 0), Vector::new(10, 10), p, p), None);
}

#[test]
fn crossing_is_rounded_down() {
    let hit = line_line_collision(
        Vector::new(0, 0),
        Vector::new(3, 1),
        Vector::new(2, -5),
        Vector::new(2, 5),
    );
    assert_eq!(hit, Some(Vector::new(2, 0)));
}

#[test]
fn segments_at_the_edge_of_the_range_cross() {
    let hit = line_line_collision(
        Vector::new(i32::MIN, i32::MIN),
        Vector::new(i32::MAX, i32::MAX),
        Vector::new(i32::MIN, i32::MAX),
        Vector::new(i32::MAX, i32::MIN),
    );
    assert_eq!(hit, Some(Vector::new(-1, -1)));
}

#[test]
fn shortest_angle_takes_the_short_way_round() {
    assert_eq!(shortest_angle_distance(0, QUARTER_TURN), QUARTER_TURN);
    assert_eq!(shortest_angle_distance(0, -QUARTER_TURN), -QUARTER_TURN);
    assert_eq!(shortest_angle_distance(0, 3 * QUARTER_TURN), -QUARTER_TURN);
    assert_eq!(shortest_angle_distance(0, 0), 0);
    assert_eq!(shortest_angle_distance(100, 100 + 5 * FULL_TURN), 0);
    assert_eq!(shortest_angle_distance(0, 7 * FULL_TURN + 10), 10);
    assert_eq!(shortest_angle_distance(7 * FULL_TURN + 10, 0), -10);
}

#[test]
fn shortest_angle_back_is_the_opposite() {
    for (a, b) in [(0, 1), (5, 700_000), (-1_000_000, 2_000_000), (0, HALF_TURN - 1), (3, 3)] {
        assert_eq!(shortest_angle_distance(a, b), -shortest_angle_distance(b, a));
    }
}

#[test]
fn half_a_turn_is_never_counted_backwards() {
    assert_eq!(shortest_angle_distance(0, HALF_TURN), HALF_TURN);
    assert_eq!(shortest_angle_distance(HALF_TURN, 0), HALF_TURN);
    assert_eq!(shortest_angle_distance(0, -HALF_TURN), HALF_TURN);
    assert_eq!(shortest_angle_distance(10, 10 - 3 * HALF_TURN), HALF_TURN);
    assert_eq!(shortest_angle_distance(0, HALF_TURN + 1), -HALF_TURN + 1);
    assert_eq!(shortest_angle_distance(0, -HALF_TURN - 1), HALF_TURN - 1);
    assert_eq!(shortest_angle_distance(0, -HALF_TURN + 1), -HALF_TURN + 1);
}

#[test]
fn shortest_angle_of_the_largest_angles() {
    let turn = shortest_angle_distance(i64::MIN, i64::MAX);
    assert!(-HALF_TURN < turn && turn <= HALF_TURN);
    assert_eq!((turn as i128 - (i64::MAX as i128 - i64::MIN as i128)).rem_euclid(FULL_TURN as i128), 0);
}

#[test]
fn angle_distance_of_a_vector() {
    assert_eq!(Vector::angle_distnace(0, QUARTER_TURN), QUARTER_TURN);
    assert_eq!(Vector::angle_distnace(0, -QUARTER_TURN), -QUARTER_TURN);
    assert_eq!(Vector::angle_distnace(0, 3 * QUARTER_TURN), -QUARTER_TURN);
    assert_eq!(Vector::angle_distnace(0, HALF_TURN), -HALF_TURN);
    assert_eq!(Vector::angle_distnace(HALF_TURN, 0), -HALF_TURN);
    assert_eq!(Vector::angle_distnace(10, 10 + FULL_TURN), 0);
}

#[test]
fn field_of_view() {
    assert!(in_view(0, 0, QUARTER_TURN));
    assert!(in_view(QUARTER_TURN / 2, 0, QUARTER_TURN));
    assert!(in_view(-QUARTER_TURN / 2, 0, QUARTER_TURN));
    assert!(!in_view(QUARTER_TURN / 2 + 1, 0, QUARTER_TURN));
    assert!(in_view(FULL_TURN - 10, 10, 40));
    assert!(!in_view(FULL_TURN - 10, 10, 39));
    assert!(!in_view(0, 0, -1));
}

#[test]
fn point_in_and_outside_a_sector() {
    let centre = Vector::new(10, 10);
    let p = Vector::new(60, 10);
    assert_eq!(point_in_sector(centre, 100, 0, QUARTER_TURN, p, 0), Some(p));
    assert_eq!(point_in_sector(centre, 100, 0, QUARTER_TURN, p, QUARTER_TURN), None);
    assert_eq!(point_in_sector(centre, 40, 0, QUARTER_TURN, p, 0), None);
}

#[test]
fn point_sector_collision_asks_for_the_bearing() {
    let centre = Vector::new(0, 0);
    let ahead = Vector::new(50, 0);
    let aside = Vector::new(0, 50);
    let edge = Vector::new(50, 50);
    let far = Vector::new(500, 0);
    assert_eq!(point_sector_collision(centre, 100, 0, QUARTER_TURN, ahead, bearing_of), Some(ahead));
    assert_eq!(point_sector_collision(centre, 100, 0, QUARTER_TURN, aside, bearing_of), None);
    assert_eq!(point_sector_collision(centre, 100, 0, QUARTER_TURN, edge, bearing_of), Some(edge));
    assert_eq!(point_sector_collision(centre, 100, 0, QUARTER_TURN, far, bearing_of), None);
    assert_eq!(
        point_sector_collision(centre, 100, QUARTER_TURN, QUARTER_TURN, aside, bearing_of),
        Some(aside)
    );
}

#[test]
fn sector_prefers_its_straight_edges() {
    let p = Vector::new(1, 1);
    let q = Vector::new(2, 2);
    let r = Vector::new(3, 3);
    let s = Vector::new(4, 4);
    assert_eq!(sector_collisions(vec![p, q], Some(r), Some(s)), vec![r, s]);
    assert_eq!(sector_collisions(vec![p], Some(r), None), vec![p, r]);
    assert_eq!(sector_collisions(vec![p], None, Some(s)), vec![p, s]);
    assert_eq!(sector_collisions(vec![p, q], Some(r), None), vec![p, q]);
    assert_eq!(sector_collisions(vec![p], Some(p), None), vec![p]);
    assert_eq!(sector_collisions(vec![], None, None), vec![]);
    assert_eq!(sector_collisions(vec![p, q], None, None), vec![p, q]);
}

#[test]
fn line_across_both_edges_of_a_sector() {
    let hits = line_sector_collision(
        Vector::new(0, 0),
        100,
        0,
        QUARTER_TURN,
        Vector::new(50, -100),
        Vector::new(50, 100),
        bearing_of,
        from_polar,
    );
    assert!(same_points(hits, vec![Vector::new(50, -50), Vector::new(50, 50)]));
}

#[test]
fn line_across_the_arc_of_a_sector() {
    // enters through the arc at (100, 0) and ends in the sector
    let hits = line_sector_collision(
        Vector::new(0, 0),
        100,
        0,
        QUARTER_TURN,
        Vector::new(200, 0),
        Vector::new(50, 0),
        bearing_of,
        from_polar,
    );
    assert!(same_points(hits, vec![Vector::new(50, 0), Vector::new(100, 0)]));
}

#[test]
fn line_behind_a_sector() {
    let hits = line_sector_collision(
        Vector::new(0, 0),
        100,
        0,
        QUARTER_TURN,
        Vector::new(-50, -100),
        Vector::new(-50, 100),
        bearing_of,
        from_polar,
    );
    assert_eq!(hits, vec![]);
}

#[test]
fn line_far_from_a_sector() {
    let hits = line_sector_collision(
        Vector::new(0, 0),
        100,
        0,
        QUARTER_TURN,
        Vector::new(500, -100),
        Vector::new(500, 100),
        bearing_of,
        from_polar,
    );
    assert_eq!(hits, vec![]);
}

#[test]
fn steep_secant_crosses_the_circle_near_its_boundary() {
    // the segment falls 2000 units in one unit of width and crosses the
    // circle beside (0, 500) and (1, -500)
    let hit =
        line_circle_collision(Vector::new(0, 0), 500, Vector::new(0, 1000), Vector::new(1, -1000));
    assert_eq!(hit, LineCircleCollision::Two(Vector::new(0, 499), Vector::new(0, -500)));
    let hit =
        line_circle_collision(Vector::new(0, 0), 5, Vector::new(-1, -10), Vector::new(1, 10));
    assert_eq!(hit, LineCircleCollision::Two(Vector::new(0, 4), Vector::new(-1, -5)));
    let hit = line_circle_collision(
        Vector::new(100, -50),
        300,
        Vector::new(90, -1000),
        Vector::new(130, 1000),
    );
    assert_eq!(hit, LineCircleCollision::Two(Vector::new(114, 249), Vector::new(103, -350)));
}

#[test]
fn steep_segment_is_met_as_the_flipped_segment_is() {
    let flip = |v: Vector| Vector::new(v.y, v.x);
    let centre = Vector::new(3, -7);
    let a = Vector::new(-40, 2);
    let b = Vector::new(35, -9);
    let level = line_circle_collision(centre, 20, a, b).into_vec();
    let upright = line_circle_collision(flip(centre), 20, flip(a), flip(b)).into_vec();
    assert_eq!(level.len(), 2);
    assert_eq!(upright, level.iter().map(|p| flip(*p)).collect::<Vec<Vector>>());
}

#[test]
fn crossings_lie_near_the_boundary_of_the_circle() {
    // segments of every slope through and beside circles of several sizes
    let mut seed: u64 = 12345;
    let mut next = |range: i64| -> i32 {
        seed = seed.wrapping_mul(6364136223846793005).wrapping_add(1442695040888963407);
        (((seed >> 33) as i64) % (2 * range + 1) - range) as i32
    };
    let mut crossings = 0;
    for round in 0..20_000 {
        let size: i64 = [3, 10, 50, 500][round % 4];
        let centre = Vector::new(next(20), next(20));
        let radius = next(size).unsigned_abs();
        let a = Vector::new(next(2 * size), next(2 * size));
        let b = Vector::new(next(2 * size), next(2 * size));
        let hit = line_circle_collision(centre, radius, a, b).into_vec();
        assert!(hit.len() <= 2);
        for p in hit {
            assert!(a.x.min(b.x) <= p.x && p.x <= a.x.max(b.x));
            assert!(a.y.min(b.y) <= p.y && p.y <= a.y.max(b.y));
            let from_centre = (((p.x - centre.x) as f64).powi(2)
                + ((p.y - centre.y) as f64).powi(2))
            .sqrt();
            if (p == a || p == b) && from_centre <= radius as f64 {
                continue;
            }
            crossings += 1;
            assert!((from_centre - radius as f64).abs() < 2.25, "{:?} {} {:?} {:?} {:?}", centre, radius, a, b, p);
        }
    }
    assert!(crossings > 1000);
}

#[test]
fn points_of_a_sector_lie_in_its_circle_and_field_of_view() {
    let centre = Vector::new(10, -20);
    let radius: u32 = 400;
    let fov = QUARTER_TURN;
    let mut seed: u64 = 99;
    let mut next = |range: i64| -> i32 {
        seed = seed.wrapping_mul(6364136223846793005).wrapping_add(1442695040888963407);
        (((seed >> 33) as i64) % (2 * range + 1) - range) as i32
    };
    let mut found = 0;
    for round in 0..4000 {
        let direction = (round as i64 % 8) * (FULL_TURN / 8);
        let a = Vector::new(next(800), next(800));
        let b = Vector::new(next(800), next(800));
        let hits = line_sector_collision(centre, radius, direction, fov, a, b, bearing_of, from_polar);
        assert!(hits.len() <= 2);
        for p in hits {
            found += 1;
            let dx = (p.x - centre.x) as f64;
            let dy = (p.y - centre.y) as f64;
            // the ends of the straight edges are rounded to the grid
            assert!((dx * dx + dy * dy).sqrt() < radius as f64 + 3.0);
            if dx * dx + dy * dy > 100.0 {
                let bearing = dy.atan2(dx) / std::f64::consts::PI * HALF_TURN as f64;
                let turn = shortest_angle_distance(bearing.round() as i64, direction);
                // a point near the centre or on an edge may be seen a little outside
                assert!(2 * turn.abs() <= fov + FULL_TURN / 36, "{:?} {:?} {:?}", a, b, p);
            }
        }
    }
    assert!(found > 500);
}
