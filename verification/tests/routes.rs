use across::path::{Point, Route, RouteCreationError, Web, WebCreationError, FULL_PROGRESS};
use across::pathfind::NodeIndex;
use across::vector::{distance_between, Vector};

fn corner() -> Route {
    Route::from_positions_unchecked(vec![
        Vector::new(0, 0),
        Vector::new(10, 0),
        Vector::new(10, 10),
    ])
}

#[test]
fn route_knows_its_length() {
    assert_eq!(corner().length(), 20);
    let diagonal =
        Route::from_positions_unchecked(vec![Vector::new(0, 0), Vector::new(3, 4)]);
    assert_eq!(diagonal.length(), 5);
}

#[test]
fn route_starts_at_its_first_point_and_ends_at_its_last() {
    let route = corner();
    assert_eq!(route.get_position(0), Vector::new(0, 0));
    assert_eq!(route.get_position(FULL_PROGRESS), Vector::new(10, 10));
}

#[test]
fn progress_is_clamped() {
    let route = corner();
    assert_eq!(route.get_position(-5), Vector::new(0, 0));
    assert_eq!(route.get_position(i64::MIN), Vector::new(0, 0));
    assert_eq!(route.get_position(2 * FULL_PROGRESS), Vector::new(10, 10));
    assert_eq!(route.get_position(i64::MAX), Vector::new(10, 10));
}

#[test]
fn position_is_interpolated_along_the_segments() {
    let route = corner();
    assert_eq!(route.get_position(250_000), Vector::new(5, 0));
    assert_eq!(route.get_position(500_000), Vector::new(10, 0));
    assert_eq!(route.get_position(750_000), Vector::new(10, 5));
    assert_eq!(route.get_position(900_000), Vector::new(10, 8));
}

#[test]
fn position_never_goes_back() {
    let route = corner();
    let mut last = 0;
    for step in 0..=100 {
        let position = route.get_position(step * 10_000);
        let along = position.x + position.y;
        assert!(along >= last);
        last = along;
    }
    assert_eq!(last, 20);
}

#[test]
fn segment_without_length_is_passed_over() {
    let route = Route::from_positions_unchecked(vec![
        Vector::new(0, 0),
        Vector::new(0, 0),
        Vector::new(10, 0),
        Vector::new(10, 0),
    ]);
    assert_eq!(route.length(), 10);
    assert_eq!(route.get_position(0), Vector::new(0, 0));
    assert_eq!(route.get_position(500_000), Vector::new(5, 0));
    assert_eq!(route.get_position(FULL_PROGRESS), Vector::new(10, 0));
}

#[test]
fn route_without_length_stays_where_it_is() {
    let route =
        Route::from_positions_unchecked(vec![Vector::new(7, 7), Vector::new(7, 7)]);
    assert_eq!(route.length(), 0);
    assert_eq!(route.get_position(0), Vector::new(7, 7));
    assert_eq!(route.get_position(400_000), Vector::new(7, 7));
    assert_eq!(route.get_position(FULL_PROGRESS), Vector::new(7, 7));
}

#[test]
fn route_leads_backwards_too() {
    let route =
        Route::from_positions_unchecked(vec![Vector::new(10, 10), Vector::new(0, 10)]);
    assert_eq!(route.get_position(300_000), Vector::new(7, 10));
    assert_eq!(route.get_position(FULL_PROGRESS), Vector::new(0, 10));
}

fn connected_points() -> Vec<Point> {
    let mut points = vec![
        Point::new(Vector::new(0, 0)),
        Point::new(Vector::new(10, 0)),
        Point::new(Vector::new(10, 10)),
    ];
    points[0].add_connections(&vec![NodeIndex(1)]);
    points[1].add_connections(&vec![NodeIndex(2), NodeIndex(0), NodeIndex(2)]);
    points
}

#[test]
fn point_remembers_each_neighbour_once() {
    let points = connected_points();
    assert_eq!(points[1].connections(), &vec![NodeIndex(2), NodeIndex(0)]);
    assert!(points[1].is_neighbour(NodeIndex(0)));
    assert!(points[0].is_neighbour(NodeIndex(1)));
    assert!(!points[0].is_neighbour(NodeIndex(2)));
    assert!(!points[2].is_neighbour(NodeIndex(1)));
    assert_eq!(*points[2].position(), Vector::new(10, 10));
}

#[test]
fn route_along_connections_is_made() {
    let points = connected_points();
    let route = Route::new(&points, &vec![NodeIndex(0), NodeIndex(1), NodeIndex(2)]).unwrap();
    assert_eq!(route.length(), 20);
    assert_eq!(
        route.points(),
        &vec![Vector::new(0, 0), Vector::new(10, 0), Vector::new(10, 10)]
    );
}

#[test]
fn route_across_missing_connections_is_refused() {
    let points = connected_points();
    let error: RouteCreationError =
        Route::new(&points, &vec![NodeIndex(0), NodeIndex(2), NodeIndex(1), NodeIndex(0), NodeIndex(2)])
            .unwrap_err();
    assert_eq!(error.invalid_connections, vec![0, 1, 3]);
    assert_eq!(error.point_count, 5);
}

#[test]
fn route_of_one_point_is_refused() {
    let points = connected_points();
    let error = Route::new(&points, &vec![NodeIndex(1)]).unwrap_err();
    assert_eq!(error.invalid_connections, Vec::<usize>::new());
    assert_eq!(error.point_count, 1);
    let error = Route::new(&points, &vec![]).unwrap_err();
    assert_eq!(error.point_count, 0);
}

fn game_positions() -> Vec<Vector> {
    vec![
        Vector::new(210, 10),
        Vector::new(700, 100),
        Vector::new(350, 200),
        Vector::new(1000, 1000),
        Vector::new(370, 800),
    ]
}

fn game_connections() -> Vec<(usize, usize)> {
    let mut all = Vec::new();
    for (a, b) in [(1, 3), (0, 2), (1, 2), (0, 4), (1, 4), (4, 2), (4, 3)] {
        all.push((a, b));
        all.push((b, a));
    }
    all
}

#[test]
fn web_finds_the_best_route_when_it_is_made() {
    let web =
        Web::new(game_positions(), game_connections(), 0, 1, |a, b| distance_between(a, b))
            .unwrap();
    assert!(web.has_route());
    assert_eq!(
        web.route(),
        vec![Vector::new(210, 10), Vector::new(350, 200), Vector::new(700, 100)]
    );
    assert_eq!(web.points().len(), 5);
    assert!(web.points()[0].is_neighbour(NodeIndex(2)));
    assert!(!web.points()[0].is_neighbour(NodeIndex(1)));
}

#[test]
fn web_reroutes_round_heavy_links() {
    let mut web =
        Web::new(game_positions(), game_connections(), 0, 1, |a, b| distance_between(a, b))
            .unwrap();
    web.recalculate_weights(|a, b| {
        let base = distance_between(a, b);
        if a == Vector::new(350, 200) || b == Vector::new(350, 200) {
            base + 5000
        } else {
            base
        }
    });
    assert!(!web.has_route());
    web.pathfind();
    assert!(web.has_route());
    assert_eq!(
        web.route(),
        vec![Vector::new(210, 10), Vector::new(370, 800), Vector::new(700, 100)]
    );
}

#[test]
fn web_refuses_endpoints_that_are_no_points() {
    let made = Web::new(game_positions(), game_connections(), 5, 1, |_, _| 1);
    assert_eq!(made.unwrap_err(), WebCreationError::InvalidEndpoints);
    let made = Web::new(game_positions(), game_connections(), 0, 9, |_, _| 1);
    assert_eq!(made.unwrap_err(), WebCreationError::InvalidEndpoints);
    let made = Web::new(vec![], vec![], 0, 0, |_, _| 1);
    assert_eq!(made.unwrap_err(), WebCreationError::InvalidEndpoints);
    // endpoints are looked at before connections
    let made = Web::new(game_positions(), vec![(0, 17)], 5, 1, |_, _| 1);
    assert_eq!(made.unwrap_err(), WebCreationError::InvalidEndpoints);
}

#[test]
fn web_refuses_connections_to_missing_points() {
    let made = Web::new(game_positions(), vec![(0, 1), (1, 5)], 0, 1, |_, _| 1);
    assert_eq!(made.unwrap_err(), WebCreationError::InvalidConnections);
}

#[test]
fn web_refuses_an_end_that_cannot_be_reached() {
    let made = Web::new(game_positions(), vec![(1, 0), (0, 2)], 0, 1, |_, _| 1);
    assert_eq!(made.unwrap_err(), WebCreationError::NoValidRoute);
}

#[test]
fn route_of_the_web_makes_a_route_for_enemies() {
    let web =
        Web::new(game_positions(), game_connections(), 0, 1, |a, b| distance_between(a, b))
            .unwrap();
    let route = Route::from_positions_unchecked(web.route());
    assert_eq!(route.length(), 236 + 364);
    assert_eq!(route.get_position(0), Vector::new(210, 10));
    assert_eq!(route.get_position(FULL_PROGRESS), Vector::new(700, 100));
}
