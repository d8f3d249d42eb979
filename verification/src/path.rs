//! Routes that enemies follow, and the web of points on which the routes are
//! found.

use crate::graph::Graph;
use crate::pathfind::{
    first_pairs, names_missing_node, names_pair, searched_route, NodeIndex, Pathfinder,
};
use crate::vector::{boxed, distance, distance_between, interpolate, interpolated, Vector};
use vstd::prelude::*;

verus! {

/// The progress of an enemy that has reached the end of its route.
pub const FULL_PROGRESS: i64 = 1_000_000;

/// Represents an error when creating a `Route` due to connections between
/// points which don't exist.
#[derive(Debug)]
pub struct RouteCreationError {
    pub invalid_connections: Vec<usize>,
    pub point_count: usize,
}

/// Represents an error when creating a `Web`.
#[derive(Debug, Clone, Copy, PartialEq, Eq, Structural)]
pub enum WebCreationError {
    /// The start index or the end index is invalid.
    InvalidEndpoints,
    /// A connection names a point that was not supplied.
    InvalidConnections,
    /// There is no route from the start to the end.
    NoValidRoute,
}

/// The length of the polyline through the first `count + 1` of `points`:
/// the sum of the distances between each of them and the next.
pub open spec fn length_upto(points: Seq<Vector>, count: int) -> int
    decreases count,
{
    if count <= 0 {
        0
    } else {
        length_upto(points, count - 1) + distance(points[count - 1], points[count])
    }
}

/// The length of the polyline through `points`.
pub open spec fn polyline_length(points: Seq<Vector>) -> int {
    length_upto(points, points.len() - 1)
}

/// The distance that an enemy has travelled along a route of length `length`
/// at `progress`, which counts as none below zero and as all of it above
/// [`FULL_PROGRESS`].
pub open spec fn travelled(length: int, progress: int) -> int {
    if progress <= 0 {
        0
    } else if progress >= FULL_PROGRESS {
        length
    } else {
        (progress * length) / (FULL_PROGRESS as int)
    }
}

/// The first segment of the polyline through `points`, from `from` on, at
/// whose end at least `target` has been travelled; the last segment where
/// there is none.
pub open spec fn segment_from(points: Seq<Vector>, from: int, target: int) -> int
    decreases points.len() - from,
{
    if from + 2 >= points.len() || length_upto(points, from + 1) >= target {
        from
    } else {
        segment_from(points, from + 1, target)
    }
}

/// Whether `p` lies in the smallest upright rectangle round some segment of
/// the polyline through `points`.
pub open spec fn on_route(points: Seq<Vector>, p: Vector) -> bool {
    exists|k: int| 0 <= k < points.len() - 1 && boxed(#[trigger] points[k], points[k + 1], p)
}

/// The point of the polyline through `points` at which `target` has been
/// travelled.
pub open spec fn point_at(points: Seq<Vector>, target: int) -> Vector {
    let segment = segment_from(points, 0, target);
    interpolate(
        points[segment],
        points[segment + 1],
        target - length_upto(points, segment),
        distance(points[segment], points[segment + 1]),
    )
}

/// The length of a polyline grows with the number of its points, and each
/// segment is shorter than the coordinate range is wide.
pub proof fn lemma_length_upto_bounds(points: Seq<Vector>, count: int)
    requires
        0 <= count,
    ensures
        0 <= length_upto(points, count) <= count * 0x1_6a09_e667,
        forall|fewer: int|
            0 <= fewer <= count ==> length_upto(points, fewer) <= length_upto(points, count),
    decreases count,
{
    if count > 0 {
        lemma_length_upto_bounds(points, count - 1);
        crate::vector::lemma_distance_bounds(points[count - 1], points[count]);
    }
}

/// The segment on which a target lies is a segment of the polyline, the
/// target is not reached before it, and it is reached at its end where the
/// polyline is long enough.
pub proof fn lemma_segment_from(points: Seq<Vector>, from: int, target: int)
    requires
        points.len() >= 2,
        0 <= from <= points.len() - 2,
        from > 0 ==> length_upto(points, from) < target,
    ensures
        from <= segment_from(points, from, target) <= points.len() - 2,
        segment_from(points, from, target) > 0 ==> length_upto(
            points,
            segment_from(points, from, target),
        ) < target,
        target <= polyline_length(points) ==> target <= length_upto(
            points,
            segment_from(points, from, target) + 1,
        ),
    decreases points.len() - from,
{
    if from + 2 >= points.len() || length_upto(points, from + 1) >= target {
    } else {
        lemma_segment_from(points, from + 1, target);
    }
}

/// A later target lies on the same segment or a later one.
pub proof fn lemma_segment_monotone(points: Seq<Vector>, from: int, nearer: int, farther: int)
    requires
        points.len() >= 2,
        0 <= from <= points.len() - 2,
        nearer <= farther,
    ensures
        segment_from(points, from, nearer) <= segment_from(points, from, farther),
    decreases points.len() - from,
{
    if from + 2 >= points.len() || length_upto(points, from + 1) >= nearer {
        lemma_segment_from_at_least(points, from, farther);
    } else {
        lemma_segment_monotone(points, from + 1, nearer, farther);
    }
}

/// The search for a segment never goes back.
pub proof fn lemma_segment_from_at_least(points: Seq<Vector>, from: int, target: int)
    requires
        0 <= from,
    ensures
        from <= segment_from(points, from, target),
    decreases points.len() - from,
{
    if from + 2 >= points.len() || length_upto(points, from + 1) >= target {
    } else {
        lemma_segment_from_at_least(points, from + 1, target);
    }
}

/// The distance travelled grows with the progress, from nothing to the whole
/// length.
pub proof fn lemma_travelled_monotone(length: int, earlier: int, later: int)
    requires
        length >= 0,
        earlier <= later,
    ensures
        0 <= travelled(length, earlier) <= travelled(length, later) <= length,
{
    lemma_travelled_bounds(length, earlier);
    lemma_travelled_bounds(length, later);
    if 0 < earlier && later < FULL_PROGRESS {
        let full = FULL_PROGRESS as int;
        assert(earlier * length <= later * length) by (nonlinear_arith)
            requires
                earlier <= later,
                length >= 0,
        ;
        vstd::arithmetic::div_mod::lemma_div_is_ordered(earlier * length, later * length, full);
    }
}

/// The distance travelled lies between nothing and the whole length.
pub proof fn lemma_travelled_bounds(length: int, progress: int)
    requires
        length >= 0,
    ensures
        0 <= travelled(length, progress) <= length,
{
    if 0 < progress < FULL_PROGRESS {
        let full = FULL_PROGRESS as int;
        assert(0 <= progress * length <= full * length) by (nonlinear_arith)
            requires
                0 < progress < full,
                length >= 0,
        ;
        vstd::arithmetic::div_mod::lemma_div_is_ordered(0, progress * length, full);
        vstd::arithmetic::div_mod::lemma_div_is_ordered(progress * length, full * length, full);
        vstd::arithmetic::div_mod::lemma_div_multiples_vanish(length, full);
        assert(0int / full == 0);
    }
}

/// Where nothing has been travelled, the point is the first of the route.
pub proof fn lemma_point_at_start(points: Seq<Vector>)
    requires
        points.len() >= 2,
    ensures
        point_at(points, 0) == points[0],
{
    lemma_length_upto_bounds(points, 1);
    assert(segment_from(points, 0, 0) == 0);
    let length = distance(points[0], points[1]);
    if length > 0 {
        assert((points[1].x - points[0].x) * 0 == 0);
        assert((points[1].y - points[0].y) * 0 == 0);
        assert(0int / length == 0);
    }
}

/// From the segment at whose end the whole length has been travelled, every
/// point is the last of the route.
proof fn lemma_rest_has_no_length(points: Seq<Vector>, from: int, index: int)
    requires
        points.len() >= 2,
        0 <= from <= index <= points.len() - 1,
        length_upto(points, from) == polyline_length(points),
    ensures
        points[index] == points[points.len() - 1],
    decreases points.len() - index,
{
    if index < points.len() - 1 {
        lemma_rest_has_no_length(points, from, index + 1);
        lemma_length_upto_bounds(points, points.len() - 1);
        lemma_length_upto_bounds(points, index + 1);
        lemma_length_upto_bounds(points, index);
        crate::vector::lemma_distance_bounds(points[index], points[index + 1]);
        assert(length_upto(points, index + 1) == length_upto(points, index) + distance(
            points[index],
            points[index + 1],
        ));
        crate::vector::lemma_distance_zero(points[index], points[index + 1]);
    }
}

/// Where the whole length has been travelled, the point is the last of the
/// route.
pub proof fn lemma_point_at_end(points: Seq<Vector>)
    requires
        points.len() >= 2,
    ensures
        point_at(points, polyline_length(points)) == points[points.len() - 1],
{
    let target = polyline_length(points);
    let segment = segment_from(points, 0, target);
    lemma_segment_from(points, 0, target);
    lemma_length_upto_bounds(points, points.len() - 1);
    lemma_length_upto_bounds(points, segment + 1);
    assert(length_upto(points, segment + 1) == target);
    lemma_rest_has_no_length(points, segment + 1, segment + 1);
    let a = points[segment];
    let b = points[segment + 1];
    let length = distance(a, b);
    crate::vector::lemma_distance_bounds(a, b);
    if length > 0 {
        assert(target - length_upto(points, segment) == length);
        assert(((b.x - a.x) * length) / length == b.x - a.x) by {
            vstd::arithmetic::div_mod::lemma_div_multiples_vanish(b.x - a.x, length);
        }
        assert(((b.y - a.y) * length) / length == b.y - a.y) by {
            vstd::arithmetic::div_mod::lemma_div_multiples_vanish(b.y - a.y, length);
        }
    } else {
        crate::vector::lemma_distance_zero(a, b);
    }
}

/// Progress along a route never leads back: at a later progress the enemy
/// has travelled at least as far, and stands on the same segment or on a later
/// one.
pub proof fn lemma_progress_never_leads_back(points: Seq<Vector>, earlier: int, later: int)
    requires
        points.len() >= 2,
        earlier <= later,
    ensures
        0 <= travelled(polyline_length(points), earlier) <= travelled(
            polyline_length(points),
            later,
        ) <= polyline_length(points),
        0 <= segment_from(points, 0, travelled(polyline_length(points), earlier)) <= segment_from(
            points,
            0,
            travelled(polyline_length(points), later),
        ) <= points.len() - 2,
{
    let length = polyline_length(points);
    lemma_length_upto_bounds(points, points.len() - 1);
    lemma_travelled_monotone(length, earlier, later);
    lemma_segment_monotone(points, 0, travelled(length, earlier), travelled(length, later));
    lemma_segment_from(points, 0, travelled(length, earlier));
    lemma_segment_from(points, 0, travelled(length, later));
}

/// A node which enemies can move to/from on a web.
#[derive(Debug, Clone)]
pub struct Point {
    /// The position of the node.
    position: Vector,
    /// The nodes which it is connected to.
    connections: Vec<NodeIndex>,
}

impl Point {
    /// Where the node lies.
    pub closed spec fn spec_position(&self) -> Vector {
        self.position
    }

    /// The nodes to which a connection leads from this node, in the order in
    /// which they were added.
    pub closed spec fn neighbours(&self) -> Seq<NodeIndex> {
        self.connections@
    }

    /// Constructs a new node.
    pub fn new(position: Vector) -> (point: Self)
        ensures
            point.spec_position() == position,
            point.neighbours() == Seq::<NodeIndex>::empty(),
    {
        Self { position, connections: Vec::new() }
    }

    /// Gets the position of this node.
    pub fn position(&self) -> (position: &Vector)
        ensures
            *position == self.spec_position(),
    {
        &self.position
    }

    /// Gets the nodes to which a connection leads from this node.
    pub fn connections(&self) -> (connections: &Vec<NodeIndex>)
        ensures
            connections@ == self.neighbours(),
    {
        &self.connections
    }

    /// Connects this node to the other given nodes. This is a one-way
    /// connection. A node that is connected already is not connected again.
    pub fn add_connections(&mut self, connections: &Vec<NodeIndex>)
        ensures
            final(self).spec_position() == old(self).spec_position(),
            final(self).neighbours() == added_to(
                old(self).neighbours(),
                connections@,
                connections@.len() as int,
            ),
    {
        let mut i: usize = 0;
        while i < connections.len()
            invariant
                i <= connections@.len(),
                self.position == old(self).position,
                self.connections@ == added_to(old(self).connections@, connections@, i as int),
            decreases connections@.len() - i,
        {
            if !self.is_neighbour(connections[i]) {
                self.connections.push(connections[i]);
            }
            i += 1;
        }
    }

    /// Checks if a given node is a neighbour of this node.
    pub fn is_neighbour(&self, point: NodeIndex) -> (found: bool)
        ensures
            found == self.neighbours().contains(point),
    {
        let mut i: usize = 0;
        while i < self.connections.len()
            invariant
                i <= self.connections@.len(),
                forall|k: int| 0 <= k < i ==> self.connections@[k] != point,
            decreases self.connections@.len() - i,
        {
            if self.connections[i].0 == point.0 {
                return true;
            }
            i += 1;
        }
        false
    }
}

/// The list `known` once the first `count` of `added` have been put at its
/// end, each unless the list held it already.
pub open spec fn added_to(known: Seq<NodeIndex>, added: Seq<NodeIndex>, count: int) -> Seq<
    NodeIndex,
>
    decreases count,
{
    if count <= 0 {
        known
    } else {
        let before = added_to(known, added, count - 1);
        if before.contains(added[count - 1]) {
            before
        } else {
            before.push(added[count - 1])
        }
    }
}

/// The steps of `route`, among the first `count`, that follow no connection
/// of `points`.
pub open spec fn invalid_steps(points: Seq<Point>, route: Seq<NodeIndex>, count: int) -> Seq<usize>
    decreases count,
{
    if count <= 0 {
        Seq::empty()
    } else {
        let before = invalid_steps(points, route, count - 1);
        if points[route[count - 1].0 as int].neighbours().contains(route[count]) {
            before
        } else {
            before.push((count - 1) as usize)
        }
    }
}

/// Represents a path which an `Enemy` should follow.
#[derive(Debug, Clone)]
pub struct Route {
    points: Vec<Vector>,
    length: u128,
}

impl View for Route {
    type V = Seq<Vector>;

    closed spec fn view(&self) -> Seq<Vector> {
        self.points@
    }
}

impl Route {
    /// The route has at least two points, and knows its length.
    pub closed spec fn wf(&self) -> bool {
        &&& self.points@.len() >= 2
        &&& self.length == polyline_length(self.points@)
    }

    /// A well-formed route has two points at least.
    pub proof fn lemma_wf(&self)
        requires
            self.wf(),
        ensures
            self@.len() >= 2,
    {
    }

    /// Constructs a new route through the points of `points` that `route`
    /// names, or returns an error if a step of it follows no connection or
    /// it has less than two points.
    pub fn new(points: &Vec<Point>, route: &Vec<NodeIndex>) -> (made: Result<
        Self,
        RouteCreationError,
    >)
        requires
            forall|i: int| 0 <= i < route@.len() ==> (#[trigger] route@[i]).0 < points@.len(),
        ensures
            made is Ok <==> route@.len() >= 2 && invalid_steps(
                points@,
                route@,
                route@.len() - 1,
            ).len() == 0,
            match made {
                Ok(found) => {
                    &&& found.wf()
                    &&& found@.len() == route@.len()
                    &&& forall|i: int|
                        0 <= i < route@.len() ==> #[trigger] found@[i]
                            == points@[route@[i].0 as int].spec_position()
                },
                Err(error) => {
                    &&& error.invalid_connections@ == invalid_steps(
                        points@,
                        route@,
                        route@.len() - 1,
                    )
                    &&& error.point_count == route@.len()
                },
            },
    {
        let mut invalid_connections: Vec<usize> = Vec::new();
        let mut i: usize = 1;
        while i < route.len()
            invariant
                1 <= i,
                i <= route@.len() || i == 1,
                forall|k: int| 0 <= k < route@.len() ==> (#[trigger] route@[k]).0 < points@.len(),
                invalid_connections@ == invalid_steps(points@, route@, i - 1),
            decreases route@.len() - i,
        {
            if !points[route[i - 1].0].is_neighbour(route[i]) {
                invalid_connections.push(i - 1);
            }
            i += 1;
        }
        if invalid_connections.len() != 0 || route.len() < 2 {
            proof {
                if route@.len() < 2 {
                    assert(invalid_steps(points@, route@, route@.len() - 1) =~= Seq::empty());
                    assert(invalid_connections@ =~= invalid_steps(points@, route@, 0));
                }
            }
            Err(RouteCreationError { invalid_connections, point_count: route.len() })
        } else {
            let mut positions: Vec<Vector> = Vec::with_capacity(route.len());
            let mut taken: usize = 0;
            while taken < route.len()
                invariant
                    taken <= route@.len(),
                    positions@.len() == taken,
                    forall|k: int|
                        0 <= k < route@.len() ==> (#[trigger] route@[k]).0 < points@.len(),
                    forall|k: int|
                        0 <= k < taken ==> #[trigger] positions@[k]
                            == points@[route@[k].0 as int].spec_position(),
                decreases route@.len() - taken,
            {
                positions.push(*points[route[taken].0].position());
                taken += 1;
            }
            Ok(Route::from_positions_unchecked(positions))
        }
    }

    /// Constructs a new route through `positions`, of which there are at
    /// least two, ignoring whether or not connections join them.
    pub fn from_positions_unchecked(positions: Vec<Vector>) -> (route: Self)
        requires
            positions@.len() >= 2,
        ensures
            route.wf(),
            route@ == positions@,
    {
        let mut length: u128 = 0;
        let mut i: usize = 1;
        while i < positions.len()
            invariant
                1 <= i <= positions@.len(),
                length == length_upto(positions@, i - 1),
            decreases positions@.len() - i,
        {
            proof {
                lemma_length_upto_bounds(positions@, i - 1);
                assert((i - 1) * 0x1_6a09_e667 + 0x1_6a09_e667 <= u128::MAX) by (nonlinear_arith)
                    requires
                        i <= usize::MAX,
                        usize::MAX <= 0xffff_ffff_ffff_ffff,
                ;
            }
            length = length + distance_between(positions[i - 1], positions[i]) as u128;
            i += 1;
        }
        Self { length, points: positions }
    }

    /// The length of the route: the sum of the distances between each of its
    /// points and the next.
    pub fn length(&self) -> (length: u128)
        requires
            self.wf(),
        ensures
            length == polyline_length(self@),
    {
        self.length
    }

    /// The points of the route.
    pub fn points(&self) -> (points: &Vec<Vector>)
        ensures
            points@ == self@,
    {
        &self.points
    }

    /// Gets the position of an enemy on this route based on its `progress`,
    /// from 0 at the first point to [`FULL_PROGRESS`] at the last.
    pub fn get_position(&self, progress: i64) -> (position: Vector)
        requires
            self.wf(),
        ensures
            position == point_at(self@, travelled(polyline_length(self@), progress as int)),
            progress <= 0 ==> position == self@[0],
            progress >= FULL_PROGRESS ==> position == self@[self@.len() - 1],
            on_route(self@, position),
    {
        let clamped: i64 = if progress < 0 {
            0
        } else if progress > FULL_PROGRESS {
            FULL_PROGRESS
        } else {
            progress
        };
        let count = self.points.len();
        proof {
            lemma_length_upto_bounds(self.points@, count - 1);
            lemma_travelled_bounds(self.length as int, clamped as int);
            assert((count - 1) * 0x1_6a09_e667 * 1_000_000 <= i128::MAX) by (nonlinear_arith)
                requires
                    count <= usize::MAX,
                    usize::MAX <= 0xffff_ffff_ffff_ffff,
            ;
            assert(0 <= clamped * self.length <= 1_000_000 * self.length <= (count - 1)
                * 0x1_6a09_e667 * 1_000_000) by (nonlinear_arith)
                requires
                    0 <= clamped <= 1_000_000,
                    0 <= self.length <= (count - 1) * 0x1_6a09_e667,
            ;
        }
        let target: u128 = if clamped >= FULL_PROGRESS {
            self.length
        } else {
            (clamped as u128 * self.length) / (FULL_PROGRESS as u128)
        };
        assert(target == travelled(polyline_length(self@), progress as int));
        let mut progress_made: u128 = 0;
        let mut i: usize = 0;
        while i < count - 1
            invariant
                self.wf(),
                count == self.points@.len(),
                i <= count - 1,
                progress_made == length_upto(self.points@, i as int),
                0 <= target <= self.length,
                target == travelled(polyline_length(self@), progress as int),
                i > 0 ==> progress_made < target,
                i < count - 1 ==> segment_from(self.points@, 0, target as int) == segment_from(
                    self.points@,
                    i as int,
                    target as int,
                ),
            decreases count - i,
        {
            let a = self.points[i];
            let b = self.points[i + 1];
            let dist = distance_between(a, b);
            proof {
                lemma_length_upto_bounds(self.points@, count - 1);
                lemma_length_upto_bounds(self.points@, i + 1);
                assert(length_upto(self.points@, i + 1) == progress_made + dist);
            }
            if progress_made + dist as u128 >= target {
                proof {
                    assert(segment_from(self.points@, i as int, target as int) == i);
                    lemma_point_at_start(self.points@);
                    lemma_point_at_end(self.points@);
                }
                let position = interpolated(a, b, target - progress_made, dist as u128);
                assert(boxed(self.points@[i as int], self.points@[i + 1], position));
                return position;
            }
            progress_made = progress_made + dist as u128;
            i += 1;
        }
        self.points[count - 1]
    }
}

/// Whether each of `walk` but the last is joined to the next by one of
/// `pairs`, and all of them are among `count` points.
pub open spec fn follows_pairs(pairs: Seq<(usize, usize)>, count: int, walk: Seq<NodeIndex>) -> bool {
    &&& walk.len() >= 1
    &&& forall|i: int| 0 <= i < walk.len() ==> (#[trigger] walk[i]).0 < count
    &&& forall|i: int| 0 <= i < walk.len() - 1 ==> names_pair(pairs, #[trigger] walk[i], walk[i + 1])
}

/// Whether some walk along `pairs` leads from `start` to `end`.
pub open spec fn pairs_join(
    pairs: Seq<(usize, usize)>,
    count: int,
    start: NodeIndex,
    end: NodeIndex,
) -> bool {
    exists|walk: Seq<NodeIndex>|
        #[trigger] follows_pairs(pairs, count, walk) && walk[0] == start && walk[walk.len() - 1]
            == end
}

/// Represents a web of points which enemies move along, with a start point
/// for enemies to spawn at, and an end point for enemies to reach.
#[derive(Debug)]
pub struct Web {
    points: Vec<Point>,
    pathfinder: Pathfinder,
    start: NodeIndex,
    end: NodeIndex,
}

impl Web {
    /// The graph of the web.
    pub closed spec fn graph(&self) -> Graph {
        self.pathfinder.graph()
    }

    /// The index of the point at which enemies spawn.
    pub closed spec fn start(&self) -> NodeIndex {
        self.start
    }

    /// The index of the point which enemies try to reach.
    pub closed spec fn end(&self) -> NodeIndex {
        self.end
    }

    /// The best route that the web remembers, as the points it visits.
    pub closed spec fn best_route(&self) -> Option<Seq<NodeIndex>> {
        self.pathfinder.route()
    }

    /// The links of the web, in their order.
    pub closed spec fn links(&self) -> Seq<(NodeIndex, NodeIndex)> {
        self.pathfinder.links()
    }

    /// The points of the web.
    pub closed spec fn spec_points(&self) -> Seq<Point> {
        self.points@
    }

    /// The positions of the points that the best route visits.
    pub open spec fn route_positions(&self) -> Seq<Vector> {
        Seq::new(
            self.best_route()->0.len(),
            |i: int| self.graph().positions[self.best_route()->0[i].0 as int],
        )
    }

    /// The best route leads from the start to the end through points of the
    /// web.
    pub proof fn lemma_route_positions(&self)
        requires
            self.wf(),
            self.best_route() is Some,
        ensures
            self.route_positions().len() >= 1,
            self.start() != self.end() ==> self.route_positions().len() >= 2,
            crate::collisions::all_in_reach(self.graph().positions)
                ==> crate::collisions::all_in_reach(self.route_positions()),
    {
        let walk = self.best_route()->0;
        assert(self.graph().is_route(self.start, self.end, walk));
        if crate::collisions::all_in_reach(self.graph().positions) {
            assert forall|i: int| 0 <= i < self.route_positions().len() implies crate::collisions::in_reach(
                #[trigger] self.route_positions()[i],
            ) by {
                assert(self.graph().has_node(walk[i]));
                assert(crate::collisions::in_reach(self.graph().positions[walk[i].0 as int]));
            }
        }
    }

    /// The web's points are the nodes of its graph, each connected to the
    /// nodes to which a link leads from it; the end can be reached from the
    /// start; and the route that the web remembers, if any, leads from the
    /// start to the end.
    pub closed spec fn wf(&self) -> bool {
        &&& self.pathfinder.wf()
        &&& self.pathfinder.estimates_toward(self.end)
        &&& self.graph().has_node(self.start)
        &&& self.graph().has_node(self.end)
        &&& self.graph().reachable(self.start, self.end)
        &&& self.points@.len() == self.graph().positions.len()
        &&& forall|i: int|
            0 <= i < self.points@.len() ==> (#[trigger] self.points@[i]).position
                == self.graph().positions[i]
        &&& forall|from: NodeIndex, to: NodeIndex|
            self.graph().has_node(from) ==> (#[trigger] self.graph().has_link(from, to)
                <==> self.points@[from.0 as int].connections@.contains(to))
        &&& match self.pathfinder.route() {
            Some(route) => self.graph().is_route(self.start, self.end, route),
            None => true,
        }
    }

    /// What a well-formed web promises of its graph, endpoints and points.
    pub proof fn lemma_wf(&self)
        requires
            self.wf(),
        ensures
            self.graph().wf(),
            self.graph().has_node(self.start()),
            self.graph().has_node(self.end()),
            self.graph().reachable(self.start(), self.end()),
            self.spec_points().len() == self.graph().positions.len(),
            forall|i: int|
                0 <= i < self.spec_points().len() ==> (#[trigger] self.spec_points()[i]).spec_position()
                    == self.graph().positions[i],
            forall|from: NodeIndex, to: NodeIndex|
                self.graph().has_node(from) ==> (#[trigger] self.graph().has_link(from, to)
                    <==> self.spec_points()[from.0 as int].neighbours().contains(to)),
            match self.best_route() {
                Some(route) => self.graph().is_route(self.start(), self.end(), route),
                None => true,
            },
    {
        self.pathfinder.lemma_graph_wf();
    }

    /// Validates the input (checking if it represents a real web with no
    /// invalid connections etc) and returns a Web if the input is valid or an
    /// error if the input is invalid.
    pub fn new<F: Fn(Vector, Vector) -> u64>(
        positions: Vec<Vector>,
        connections: Vec<(usize, usize)>,
        start: usize,
        end: usize,
        weight_calculation: F,
    ) -> (made: Result<Self, WebCreationError>)
        requires
            forall|i: int|
                0 <= i < connections@.len() && (#[trigger] connections@[i]).0 < positions@.len()
                    && connections@[i].1 < positions@.len() ==> weight_calculation.requires(
                    (positions@[connections@[i].0 as int], positions@[connections@[i].1 as int]),
                ),
        ensures
            made == Err::<Self, WebCreationError>(WebCreationError::InvalidEndpoints) <==> start
                >= positions@.len() || end >= positions@.len(),
            made == Err::<Self, WebCreationError>(WebCreationError::InvalidConnections) <==> start
                < positions@.len() && end < positions@.len() && names_missing_node(
                connections@,
                positions@.len() as int,
            ),
            made == Err::<Self, WebCreationError>(WebCreationError::NoValidRoute) <==> start
                < positions@.len() && end < positions@.len() && !names_missing_node(
                connections@,
                positions@.len() as int,
            ) && !pairs_join(
                connections@,
                positions@.len() as int,
                NodeIndex(start),
                NodeIndex(end),
            ),
            made is Ok <==> start < positions@.len() && end < positions@.len()
                && !names_missing_node(connections@, positions@.len() as int) && pairs_join(
                connections@,
                positions@.len() as int,
                NodeIndex(start),
                NodeIndex(end),
            ),
            made matches Ok(web) ==> {
                &&& web.wf()
                &&& web.start() == NodeIndex(start)
                &&& web.end() == NodeIndex(end)
                &&& web.graph().positions == positions@
                &&& forall|from: NodeIndex, to: NodeIndex|
                    web.graph().has_link(from, to) <==> names_pair(connections@, from, to)
                &&& forall|from: NodeIndex, to: NodeIndex| #[trigger]
                    web.graph().has_link(from, to) ==> weight_calculation.ensures(
                        (positions@[from.0 as int], positions@[to.0 as int]),
                        web.graph().weights[(from, to)],
                    )
                &&& web.best_route() is Some
                &&& web.graph().is_route(NodeIndex(start), NodeIndex(end), web.best_route()->0)
                &&& web.best_route()->0.no_duplicates()
                &&& web.links() == first_pairs(connections@)
                &&& web.best_route() == searched_route(
                    web.graph(),
                    web.links(),
                    NodeIndex(start),
                    NodeIndex(end),
                )
                &&& web.graph().consistent_toward(NodeIndex(end))
                    || web.graph().weights_reach_distances() ==> web.graph().is_cheapest_route(
                    NodeIndex(start),
                    NodeIndex(end),
                    web.best_route()->0,
                )
            },
    {
        if start >= positions.len() || end >= positions.len() {
            return Err(WebCreationError::InvalidEndpoints);
        }
        let start = NodeIndex(start);
        let end = NodeIndex(end);
        let mut pathfinder = match Pathfinder::new(&positions, &connections, weight_calculation) {
            Some(pathfinder) => pathfinder,
            None => {
                return Err(WebCreationError::InvalidConnections);
            },
        };
        let ghost graph = pathfinder.graph();
        proof {
            pathfinder.lemma_graph_wf();
            pathfinder.lemma_fresh_estimates(end);
            lemma_pairs_join(connections@, graph, start, end);
        }
        match pathfinder.pathfind(start, end) {
            Ok(_) => {},
            Err(_) => {
                return Err(WebCreationError::NoValidRoute);
            },
        }
        let mut points: Vec<Point> = Vec::with_capacity(positions.len());
        let mut made: usize = 0;
        while made < positions.len()
            invariant
                made <= positions@.len(),
                points@.len() == made,
                forall|k: int|
                    0 <= k < made ==> (#[trigger] points@[k]).position == positions@[k]
                        && points@[k].connections@ == Seq::<NodeIndex>::empty(),
            decreases positions@.len() - made,
        {
            points.push(Point::new(positions[made]));
            made += 1;
        }
        let mut joined: usize = 0;
        while joined < connections.len()
            invariant
                joined <= connections@.len(),
                points@.len() == positions@.len(),
                !names_missing_node(connections@, positions@.len() as int),
                forall|k: int|
                    0 <= k < points@.len() ==> (#[trigger] points@[k]).position == positions@[k],
                forall|from: NodeIndex, to: NodeIndex|
                    from.0 < points@.len() ==> (points@[from.0 as int].connections@.contains(to)
                        <==> #[trigger] names_pair(
                        connections@.subrange(0, joined as int),
                        from,
                        to,
                    )),
            decreases connections@.len() - joined,
        {
            let (a, b) = connections[joined];
            assert(connections@[joined as int].0 < positions@.len());
            let mut added: Vec<NodeIndex> = Vec::with_capacity(1);
            added.push(NodeIndex(b));
            let ghost before = points@;
            points[a].add_connections(&added);
            proof {
                let known = before[a as int].connections@;
                assert(added_to(known, added@, 0) == known);
                assert(added_to(known, added@, 1) == if known.contains(NodeIndex(b)) {
                    known
                } else {
                    known.push(NodeIndex(b))
                });
                let taken = connections@.subrange(0, joined as int);
                let more = connections@.subrange(0, joined + 1);
                assert forall|from: NodeIndex, to: NodeIndex| from.0 < points@.len() implies (
                points@[from.0 as int].connections@.contains(to) <==> #[trigger] names_pair(
                    more,
                    from,
                    to,
                )) by {
                    assert(before[from.0 as int].connections@.contains(to) <==> names_pair(
                        taken,
                        from,
                        to,
                    ));
                    if names_pair(taken, from, to) {
                        let k = choose|k: int| 0 <= k < taken.len() && #[trigger] taken[k] == (
                            from.0,
                            to.0,
                        );
                        assert(more[k] == taken[k]);
                    }
                    if names_pair(more, from, to) {
                        let k = choose|k: int| 0 <= k < more.len() && #[trigger] more[k] == (
                            from.0,
                            to.0,
                        );
                        if k < joined {
                            assert(taken[k] == more[k]);
                        } else {
                            assert(from.0 == a && to.0 == b);
                        }
                    }
                    if from.0 == a {
                        let now = points@[from.0 as int].connections@;
                        if known.contains(to) {
                            let m = choose|m: int| 0 <= m < known.len() && known[m] == to;
                            assert(now[m] == to);
                        }
                        if to == NodeIndex(b) {
                            assert(more[joined as int] == (a, b));
                            if !known.contains(to) {
                                assert(now[known.len() as int] == to);
                            }
                        }
                        if now.contains(to) && to != NodeIndex(b) {
                            let m = choose|m: int| 0 <= m < now.len() && now[m] == to;
                            assert(known[m] == to);
                        }
                    } else {
                        assert(points@[from.0 as int] == before[from.0 as int]);
                    }
                }
            }
            joined += 1;
        }
        let web = Self { points, pathfinder, start, end };
        proof {
            assert(connections@.subrange(0, connections@.len() as int) =~= connections@);
            assert forall|from: NodeIndex, to: NodeIndex| web.graph().has_node(from) implies (
            #[trigger] web.graph().has_link(from, to) <==> web.points@[from.0 as int].connections@.contains(
            to)) by {
                assert(names_pair(connections@, from, to) <==> web.graph().has_link(from, to));
            }
        }
        Ok(web)
    }

    /// Uses the search to calculate the best route from the start to the end
    /// anew.
    pub fn pathfind(&mut self)
        requires
            old(self).wf(),
        ensures
            final(self).wf(),
            final(self).graph() == old(self).graph(),
            final(self).start() == old(self).start(),
            final(self).end() == old(self).end(),
            final(self).spec_points() == old(self).spec_points(),
            final(self).best_route() is Some,
            final(self).graph().is_route(
                final(self).start(),
                final(self).end(),
                final(self).best_route()->0,
            ),
            final(self).best_route()->0.no_duplicates(),
            final(self).links() == old(self).links(),
            final(self).best_route() == searched_route(
                final(self).graph(),
                final(self).links(),
                final(self).start(),
                final(self).end(),
            ),
            final(self).graph().consistent_toward(final(self).end())
                || final(self).graph().weights_reach_distances()
                ==> final(self).graph().is_cheapest_route(
                final(self).start(),
                final(self).end(),
                final(self).best_route()->0,
            ),
    {
        let _ = self.pathfinder.pathfind(self.start, self.end);
    }

    /// Whether the web remembers a best route.
    pub fn has_route(&self) -> (found: bool)
        requires
            self.wf(),
        ensures
            found == self.best_route() is Some,
    {
        self.pathfinder.best_route().is_some()
    }

    /// Gets the best route, which the web remembers.
    pub fn route(&self) -> (route: Vec<Vector>)
        requires
            self.wf(),
            self.best_route() is Some,
        ensures
            route@ == self.route_positions(),
            route@.len() >= 1,
            route@[0] == self.graph().positions[self.start().0 as int],
            route@[route@.len() - 1] == self.graph().positions[self.end().0 as int],
    {
        self.pathfinder.best_route().unwrap()
    }

    /// Gets the points of the web.
    pub fn points(&self) -> (points: &Vec<Point>)
        ensures
            points@ == self.spec_points(),
    {
        &self.points
    }

    /// Recalculates the weights of connections between nodes on this web,
    /// given a function to specify how the weights are calculated, and
    /// forgets the best route.
    pub fn recalculate_weights<F: Fn(Vector, Vector) -> u64>(&mut self, weight_calculation: F)
        requires
            old(self).wf(),
            forall|from: NodeIndex, to: NodeIndex| #[trigger]
                old(self).graph().has_link(from, to) ==> weight_calculation.requires(
                    (
                        old(self).graph().positions[from.0 as int],
                        old(self).graph().positions[to.0 as int],
                    ),
                ),
        ensures
            final(self).wf(),
            final(self).start() == old(self).start(),
            final(self).end() == old(self).end(),
            final(self).spec_points() == old(self).spec_points(),
            final(self).graph().positions == old(self).graph().positions,
            final(self).graph().weights.dom() == old(self).graph().weights.dom(),
            forall|from: NodeIndex, to: NodeIndex| #[trigger]
                final(self).graph().has_link(from, to) ==> weight_calculation.ensures(
                    (
                        final(self).graph().positions[from.0 as int],
                        final(self).graph().positions[to.0 as int],
                    ),
                    final(self).graph().weights[(from, to)],
                ),
            final(self).best_route() is None,
            final(self).links() == old(self).links(),
    {
        let ghost before = self.graph();
        self.pathfinder.recalculate_weights(weight_calculation);
        proof {
            let after = self.graph();
            let walk = choose|walk: Seq<NodeIndex>| before.is_route(self.start, self.end, walk);
            assert forall|i: int| 0 <= i < walk.len() - 1 implies after.has_link(
                #[trigger] walk[i],
                walk[i + 1],
            ) by {
                assert(before.has_link(walk[i], walk[i + 1]));
            }
            assert forall|i: int| 0 <= i < walk.len() implies after.has_node(#[trigger] walk[i]) by {
                assert(before.has_node(walk[i]));
            }
            assert(after.is_route(self.start, self.end, walk));
            assert forall|from: NodeIndex, to: NodeIndex| after.has_node(from) implies (
            #[trigger] after.has_link(from, to) <==> self.points@[from.0 as int].connections@.contains(
            to)) by {
                assert(before.has_link(from, to) == after.has_link(from, to));
            }
        }
    }
}

/// A walk along the pairs from which a graph was made is a walk in the
/// graph, and the other way round.
proof fn lemma_pairs_join(
    pairs: Seq<(usize, usize)>,
    graph: Graph,
    start: NodeIndex,
    end: NodeIndex,
)
    requires
        forall|from: NodeIndex, to: NodeIndex| graph.has_link(from, to) <==> names_pair(pairs, from, to),
    ensures
        graph.reachable(start, end) <==> pairs_join(pairs, graph.positions.len() as int, start, end),
{
    let count = graph.positions.len() as int;
    if graph.reachable(start, end) {
        let walk = choose|walk: Seq<NodeIndex>| graph.is_route(start, end, walk);
        assert forall|i: int| 0 <= i < walk.len() - 1 implies names_pair(
            pairs,
            #[trigger] walk[i],
            walk[i + 1],
        ) by {
            assert(graph.has_link(walk[i], walk[i + 1]));
        }
        assert forall|i: int| 0 <= i < walk.len() implies (#[trigger] walk[i]).0 < count by {
            assert(graph.has_node(walk[i]));
        }
        assert(follows_pairs(pairs, count, walk));
    }
    if pairs_join(pairs, count, start, end) {
        let walk = choose|walk: Seq<NodeIndex>|
            #[trigger] follows_pairs(pairs, count, walk) && walk[0] == start && walk[walk.len() - 1]
                == end;
        assert forall|i: int| 0 <= i < walk.len() - 1 implies graph.has_link(
            #[trigger] walk[i],
            walk[i + 1],
        ) by {
            assert(names_pair(pairs, walk[i], walk[i + 1]));
        }
        assert(graph.is_route(start, end, walk));
    }
}

} // verus!
