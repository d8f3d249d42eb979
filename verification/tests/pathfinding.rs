use across::pathfind::{Connection, Node, NodeIndex, PathNotFound, Pathfinder};
use across::vector::{distance_between, Vector};
use std::cell::Cell;

fn square() -> Vec<Vector> {
    vec![Vector::new(0, 0), Vector::new(10, 0), Vector::new(10, 10), Vector::new(0, 10)]
}

fn both_ways(pairs: &[(usize, usize)]) -> Vec<(usize, usize)> {
    let mut all = Vec::new();
    for &(a, b) in pairs {
        all.push((a, b));
        all.push((b, a));
    }
    all
}

#[test]
fn square_cycle_best_route_costs_twenty() {
    let positions = square();
    let connections = both_ways(&[(0, 1), (1, 2), (2, 3), (3, 0)]);
    let mut pathfinder =
        Pathfinder::new(&positions, &connections, |a, b| distance_between(a, b)).unwrap();
    let route = pathfinder.pathfind(NodeIndex(0), NodeIndex(2)).unwrap();
    assert_eq!(route.len(), 3);
    assert_eq!(route[0].position(), Vector::new(0, 0));
    assert_eq!(route[2].position(), Vector::new(10, 10));
    let middle = route[1].position();
    assert!(middle == Vector::new(10, 0) || middle == Vector::new(0, 10));
    assert_eq!(route[2].f_cost(), Some(20));
    let best = pathfinder.best_route().unwrap();
    assert_eq!(best.len(), 3);
    assert_eq!(best[0], positions[0]);
    assert_eq!(best[2], positions[2]);
}

#[test]
fn first_of_two_equal_routes_wins() {
    let positions = square();
    let connections = both_ways(&[(0, 1), (1, 2), (2, 3), (3, 0)]);
    let mut pathfinder =
        Pathfinder::new(&positions, &connections, |a, b| distance_between(a, b)).unwrap();
    pathfinder.pathfind(NodeIndex(0), NodeIndex(2)).unwrap();
    let best = pathfinder.best_route().unwrap();
    assert_eq!(best, vec![Vector::new(0, 0), Vector::new(10, 0), Vector::new(10, 10)]);
}

#[test]
fn best_route_is_unknown_before_the_search() {
    let positions = square();
    let connections = vec![(0, 1)];
    let pathfinder = Pathfinder::new(&positions, &connections, |_, _| 1).unwrap();
    assert_eq!(pathfinder.best_route(), None);
}

#[test]
fn pathfinder_needs_a_node() {
    let positions: Vec<Vector> = vec![];
    let connections: Vec<(usize, usize)> = vec![];
    assert!(Pathfinder::new(&positions, &connections, |_, _| 1).is_none());
}

#[test]
fn pathfinder_rejects_a_connection_to_a_missing_node() {
    let positions = square();
    assert!(Pathfinder::new(&positions, &vec![(0, 4)], |_, _| 1).is_none());
    assert!(Pathfinder::new(&positions, &vec![(0, 1), (7, 1)], |_, _| 1).is_none());
    assert!(Pathfinder::new(&positions, &vec![(0, 3)], |_, _| 1).is_some());
}

#[test]
fn repeated_connections_are_weighed_once() {
    let positions = square();
    let connections = vec![(0, 1), (1, 2), (0, 1), (1, 2), (0, 1)];
    let calls = Cell::new(0u64);
    let mut pathfinder = Pathfinder::new(&positions, &connections, |_, _| {
        calls.set(calls.get() + 1);
        calls.get()
    })
    .unwrap();
    assert_eq!(calls.get(), 2);
    let route = pathfinder.pathfind(NodeIndex(0), NodeIndex(2)).unwrap();
    assert_eq!(route.len(), 3);
    assert_eq!(route[2].f_cost(), Some(3));
}

#[test]
fn search_reports_an_end_that_cannot_be_reached() {
    let positions = square();
    let connections = vec![(0, 1), (1, 0), (2, 3)];
    let mut pathfinder = Pathfinder::new(&positions, &connections, |_, _| 1).unwrap();
    assert_eq!(pathfinder.pathfind(NodeIndex(0), NodeIndex(3)), Err(PathNotFound));
    assert_eq!(pathfinder.best_route(), None);
    assert!(pathfinder.pathfind(NodeIndex(2), NodeIndex(3)).is_ok());
}

#[test]
fn connections_lead_one_way_only() {
    let positions = square();
    let connections = vec![(0, 1), (1, 2)];
    let mut pathfinder = Pathfinder::new(&positions, &connections, |_, _| 1).unwrap();
    assert!(pathfinder.pathfind(NodeIndex(0), NodeIndex(2)).is_ok());
    assert_eq!(pathfinder.pathfind(NodeIndex(2), NodeIndex(0)), Err(PathNotFound));
}

#[test]
fn route_from_a_node_to_itself_is_that_node() {
    let positions = square();
    let connections = both_ways(&[(0, 1)]);
    let mut pathfinder = Pathfinder::new(&positions, &connections, |_, _| 5).unwrap();
    let route = pathfinder.pathfind(NodeIndex(1), NodeIndex(1)).unwrap();
    assert_eq!(route.len(), 1);
    assert_eq!(route[0].position(), Vector::new(10, 0));
    assert_eq!(route[0].f_cost(), Some(0));
    assert_eq!(pathfinder.best_route(), Some(vec![Vector::new(10, 0)]));
}

#[test]
fn cheaper_detour_beats_the_direct_link() {
    // 0 -> 2 directly costs 50; through 1 it costs 10 + 10.
    let positions = vec![Vector::new(0, 0), Vector::new(10, 0), Vector::new(20, 0)];
    let connections = vec![(0, 2), (0, 1), (1, 2)];
    let mut pathfinder = Pathfinder::new(&positions, &connections, |a, b| {
        if distance_between(a, b) == 20 {
            50
        } else {
            10
        }
    })
    .unwrap();
    let route = pathfinder.pathfind(NodeIndex(0), NodeIndex(2)).unwrap();
    assert_eq!(route.len(), 3);
    assert_eq!(route[1].position(), Vector::new(10, 0));
    assert_eq!(route[2].f_cost(), Some(20));
}

#[test]
fn recalculating_weights_forgets_the_route_and_reroutes() {
    let positions = square();
    let connections = vec![(0, 1), (1, 2), (0, 3), (3, 2)];
    let mut pathfinder =
        Pathfinder::new(&positions, &connections, |a, b| distance_between(a, b)).unwrap();
    let before = pathfinder.pathfind(NodeIndex(0), NodeIndex(2)).unwrap();
    assert_eq!(before[1].position(), Vector::new(10, 0));
    let cost_before = before[2].f_cost().unwrap();
    // the way through (10, 0) becomes expensive
    pathfinder.recalculate_weights(|a, b| {
        let base = distance_between(a, b);
        if a == Vector::new(10, 0) || b == Vector::new(10, 0) {
            base + 100
        } else {
            base
        }
    });
    assert_eq!(pathfinder.best_route(), None);
    let after = pathfinder.pathfind(NodeIndex(0), NodeIndex(2)).unwrap();
    assert_eq!(after[1].position(), Vector::new(0, 10));
    let cost_after = after[2].f_cost().unwrap();
    assert_eq!(cost_before, 20);
    assert_eq!(cost_after, 20);
    assert!(cost_after >= cost_before);
}

#[test]
fn heavier_links_never_make_the_best_route_cheaper() {
    let positions = square();
    let connections = both_ways(&[(0, 1), (1, 2), (2, 3), (3, 0)]);
    let mut pathfinder =
        Pathfinder::new(&positions, &connections, |a, b| distance_between(a, b)).unwrap();
    let before = pathfinder.pathfind(NodeIndex(0), NodeIndex(2)).unwrap();
    let cost_before = before[before.len() - 1].f_cost().unwrap();
    pathfinder.recalculate_weights(|a, b| distance_between(a, b) + 7);
    let after = pathfinder.pathfind(NodeIndex(0), NodeIndex(2)).unwrap();
    let cost_after = after[after.len() - 1].f_cost().unwrap();
    assert_eq!(cost_before, 20);
    assert_eq!(cost_after, 34);
}

#[test]
fn search_can_be_repeated() {
    let positions = square();
    let connections = both_ways(&[(0, 1), (1, 2), (2, 3), (3, 0)]);
    let mut pathfinder =
        Pathfinder::new(&positions, &connections, |a, b| distance_between(a, b)).unwrap();
    let first = pathfinder.pathfind(NodeIndex(0), NodeIndex(2)).unwrap();
    let second = pathfinder.pathfind(NodeIndex(0), NodeIndex(2)).unwrap();
    assert_eq!(first, second);
}

#[test]
fn new_node_has_no_costs() {
    let mut node = Node::new(Vector::new(3, 4));
    assert_eq!(node.position(), Vector::new(3, 4));
    assert_eq!(node.f_cost(), None);
    let target = Node::new(Vector::new(0, 0));
    assert_eq!(node.f_cost_calculate(&target), None);
}

#[test]
fn node_index_and_connection_from_plain_values() {
    assert_eq!(NodeIndex::from(3), NodeIndex(3));
    let connection = Connection::from((1, 2, 30));
    assert_eq!(connection.start, NodeIndex(1));
    assert_eq!(connection.end, NodeIndex(2));
    assert_eq!(connection.weight, 30);
}

#[test]
fn longer_chain_is_followed_to_its_end() {
    let positions: Vec<Vector> = (0..50).map(|i| Vector::new(i * 10, 0)).collect();
    let connections: Vec<(usize, usize)> = (0..49).map(|i| (i, i + 1)).collect();
    let mut pathfinder =
        Pathfinder::new(&positions, &connections, |a, b| distance_between(a, b)).unwrap();
    let route = pathfinder.pathfind(NodeIndex(0), NodeIndex(49)).unwrap();
    assert_eq!(route.len(), 50);
    assert_eq!(route[49].f_cost(), Some(490));
    for (i, node) in route.iter().enumerate() {
        assert_eq!(node.position(), positions[i]);
    }
}

#[test]
fn weights_below_the_distances_can_hide_the_cheapest_route() {
    // the first node after the start lies far from the end, the second close to it
    let positions =
        vec![Vector::new(0, 0), Vector::new(1000, 0), Vector::new(0, 1), Vector::new(0, 2)];
    let connections = vec![(0, 1), (1, 3), (0, 2), (2, 3)];
    let mut pathfinder = Pathfinder::new(&positions, &connections, |a: Vector, b: Vector| {
        if a == Vector::new(0, 1) && b == Vector::new(0, 2) {
            3
        } else {
            1
        }
    })
    .unwrap();
    let route = pathfinder.pathfind(NodeIndex(0), NodeIndex(3)).unwrap();
    // the search goes by the node close to the end, though the other way costs 2
    assert_eq!(route[1].position(), Vector::new(0, 1));
    assert_eq!(route[2].f_cost(), Some(4));
    // with weights that are no less than the distances it finds the cheapest
    pathfinder.recalculate_weights(|a: Vector, b: Vector| {
        if a == Vector::new(0, 1) && b == Vector::new(0, 2) {
            3000
        } else {
            distance_between(a, b)
        }
    });
    let route = pathfinder.pathfind(NodeIndex(0), NodeIndex(3)).unwrap();
    assert_eq!(route[1].position(), Vector::new(1000, 0));
    assert_eq!(route[2].f_cost(), Some(2000));
}

#[test]
fn rounded_distances_as_weights_can_hide_the_cheapest_route() {
    // the links weigh the distances between their ends, rounded down
    let positions =
        vec![Vector::new(0, 0), Vector::new(1, 1), Vector::new(3, 3), Vector::new(6, 6)];
    let connections = vec![(0, 2), (0, 1), (1, 2), (2, 3)];
    let mut pathfinder =
        Pathfinder::new(&positions, &connections, |a, b| distance_between(a, b)).unwrap();
    let route = pathfinder.pathfind(NodeIndex(0), NodeIndex(3)).unwrap();
    assert_eq!(route.len(), 3);
    assert_eq!(route[2].f_cost(), Some(8));
    // rounded up, they are no less than the distances, and the cheapest
    // route is found: both ways cost 10 then, and the first found wins
    pathfinder.recalculate_weights(|a, b| {
        let rounded = distance_between(a, b);
        let exact = ((a.x - b.x) as i64).pow(2) + ((a.y - b.y) as i64).pow(2);
        if (rounded * rounded) as i64 == exact {
            rounded
        } else {
            rounded + 1
        }
    });
    let route = pathfinder.pathfind(NodeIndex(0), NodeIndex(3)).unwrap();
    assert_eq!(route[route.len() - 1].f_cost(), Some(10));
}

#[test]
fn no_node_is_visited_twice() {
    // a web with links back and forth between all neighbours, some free
    let positions: Vec<Vector> = (0..6).map(|i| Vector::new(10 * i, (i % 2) * 10)).collect();
    let mut connections = Vec::new();
    for i in 0..5 {
        connections.push((i, i + 1));
        connections.push((i + 1, i));
    }
    connections.push((0, 3));
    connections.push((3, 0));
    let mut pathfinder = Pathfinder::new(&positions, &connections, |_, _| 0).unwrap();
    for start in 0..6 {
        for end in 0..6 {
            let route = pathfinder.pathfind(NodeIndex(start), NodeIndex(end)).unwrap();
            for i in 0..route.len() {
                for j in 0..i {
                    assert_ne!(route[i].position(), route[j].position());
                }
            }
            if start == end {
                assert_eq!(route.len(), 1);
            }
        }
    }
}
