//! The mathematical model of the waypoint graph: positions, directed weighted
//! links, walks along the links and what they cost.

use crate::pathfind::NodeIndex;
use crate::vector::{distance, sqr_distance, Vector};
use vstd::prelude::*;

verus! {

/// A directed graph of waypoints. Each ordered pair of nodes carries at most
/// one link, which has a weight.
pub struct Graph {
    /// The position of each node, by index.
    pub positions: Seq<Vector>,
    /// The weight of each link, by its ordered pair of endpoints.
    pub weights: Map<(NodeIndex, NodeIndex), u64>,
}

impl Graph {
    /// Whether `node` names a node of this graph.
    pub open spec fn has_node(self, node: NodeIndex) -> bool {
        node.0 < self.positions.len()
    }

    /// Whether a link leads from `from` to `to`.
    pub open spec fn has_link(self, from: NodeIndex, to: NodeIndex) -> bool {
        self.weights.dom().contains((from, to))
    }

    /// The weight of the link from `from` to `to`.
    pub open spec fn weight(self, from: NodeIndex, to: NodeIndex) -> int {
        self.weights[(from, to)] as int
    }

    /// The graph has a node, and every link joins two of its nodes.
    pub open spec fn wf(self) -> bool {
        &&& self.positions.len() > 0
        &&& forall|from: NodeIndex, to: NodeIndex| #[trigger]
            self.has_link(from, to) ==> self.has_node(from) && self.has_node(to)
    }

    /// Whether `walk` visits nodes of the graph, each joined to the next by a
    /// link.
    pub open spec fn is_walk(self, walk: Seq<NodeIndex>) -> bool {
        &&& walk.len() >= 1
        &&& forall|i: int| 0 <= i < walk.len() ==> self.has_node(#[trigger] walk[i])
        &&& forall|i: int|
            0 <= i < walk.len() - 1 ==> self.has_link(#[trigger] walk[i], walk[i + 1])
    }

    /// Whether `walk` is a walk from `start` to `end`.
    pub open spec fn is_route(self, start: NodeIndex, end: NodeIndex, walk: Seq<NodeIndex>) -> bool {
        &&& self.is_walk(walk)
        &&& walk[0] == start
        &&& walk[walk.len() - 1] == end
    }

    /// Whether some walk leads from `start` to `end`.
    pub open spec fn reachable(self, start: NodeIndex, end: NodeIndex) -> bool {
        exists|walk: Seq<NodeIndex>| self.is_route(start, end, walk)
    }

    /// The total weight of the links that `walk` follows.
    pub open spec fn cost(self, walk: Seq<NodeIndex>) -> int
        decreases walk.len(),
    {
        if walk.len() <= 1 {
            0
        } else {
            self.weight(walk[0], walk[1]) + self.cost(walk.subrange(1, walk.len() as int))
        }
    }

    /// Whether `walk` leads from `start` to `end` and no walk between them
    /// costs less.
    pub open spec fn is_cheapest_route(
        self,
        start: NodeIndex,
        end: NodeIndex,
        walk: Seq<NodeIndex>,
    ) -> bool {
        &&& self.is_route(start, end, walk)
        &&& forall|other: Seq<NodeIndex>| #[trigger]
            self.is_route(start, end, other) ==> self.cost(walk) <= self.cost(other)
    }

    /// The estimate of what remains from `from` to `target`: the straight-line
    /// distance between them.
    pub open spec fn heuristic(self, from: NodeIndex, target: NodeIndex) -> int {
        distance(self.positions[target.0 as int], self.positions[from.0 as int])
    }

    /// Whether the straight-line estimate toward `target` never drops by more
    /// than a link's weight along that link.
    pub open spec fn consistent_toward(self, target: NodeIndex) -> bool {
        forall|from: NodeIndex, to: NodeIndex| #[trigger]
            self.has_link(from, to) ==> self.heuristic(from, target) <= self.weight(from, to)
                + self.heuristic(to, target)
    }

    /// Whether every link weighs more than the distance between its ends,
    /// rounded down.
    pub open spec fn weights_cover_distances(self) -> bool {
        forall|from: NodeIndex, to: NodeIndex| #[trigger]
            self.has_link(from, to) ==> self.weight(from, to) >= distance(
                self.positions[from.0 as int],
                self.positions[to.0 as int],
            ) + 1
    }

    /// Whether every link weighs no less than the distance between its ends,
    /// which is not rounded here. A weight that is the distance rounded down
    /// reaches it only where the distance is a whole number.
    pub open spec fn weights_reach_distances(self) -> bool {
        forall|from: NodeIndex, to: NodeIndex| #[trigger]
            self.has_link(from, to) ==> self.weight(from, to) * self.weight(from, to)
                >= sqr_distance(self.positions[from.0 as int], self.positions[to.0 as int])
    }

    /// Whether `other` has the same nodes and links as this graph, each link
    /// weighing at least as much as here.
    pub open spec fn no_lighter_than(self, other: Graph) -> bool {
        &&& self.positions == other.positions
        &&& self.weights.dom() == other.weights.dom()
        &&& forall|from: NodeIndex, to: NodeIndex| #[trigger]
            self.has_link(from, to) ==> self.weight(from, to) >= other.weight(from, to)
    }
}

/// The cost of a walk is never negative.
pub proof fn lemma_cost_nonnegative(graph: Graph, walk: Seq<NodeIndex>)
    ensures
        graph.cost(walk) >= 0,
    decreases walk.len(),
{
    if walk.len() > 1 {
        lemma_cost_nonnegative(graph, walk.subrange(1, walk.len() as int));
    }
}

/// Putting a node in front of a walk adds the weight of the first link.
pub proof fn lemma_cost_prepend(graph: Graph, first: NodeIndex, walk: Seq<NodeIndex>)
    requires
        walk.len() >= 1,
    ensures
        graph.cost(seq![first] + walk) == graph.weight(first, walk[0]) + graph.cost(walk),
{
    let whole = seq![first] + walk;
    assert(whole.subrange(1, whole.len() as int) =~= walk);
}

/// A walk that is cut at one of its nodes costs as much as its two parts.
pub proof fn lemma_cost_split(graph: Graph, walk: Seq<NodeIndex>, at: int)
    requires
        0 <= at < walk.len(),
    ensures
        graph.cost(walk) == graph.cost(walk.subrange(0, at + 1)) + graph.cost(
            walk.subrange(at, walk.len() as int),
        ),
    decreases at,
{
    let head = walk.subrange(0, at + 1);
    let tail = walk.subrange(at, walk.len() as int);
    if at == 0 {
        assert(tail =~= walk);
    } else {
        let rest = walk.subrange(1, walk.len() as int);
        lemma_cost_split(graph, rest, at - 1);
        assert(rest.subrange(0, at) =~= head.subrange(1, head.len() as int));
        assert(rest.subrange(at - 1, rest.len() as int) =~= tail);
    }
}

/// Both parts of a walk that is cut at one of its nodes are walks.
pub proof fn lemma_walk_split(graph: Graph, walk: Seq<NodeIndex>, at: int)
    requires
        graph.is_walk(walk),
        0 <= at < walk.len(),
    ensures
        graph.is_walk(walk.subrange(0, at + 1)),
        graph.is_walk(walk.subrange(at, walk.len() as int)),
{
    let head = walk.subrange(0, at + 1);
    let tail = walk.subrange(at, walk.len() as int);
    assert forall|i: int| 0 <= i < head.len() - 1 implies graph.has_link(
        #[trigger] head[i],
        head[i + 1],
    ) by {
        assert(graph.has_link(walk[i], walk[i + 1]));
    }
    assert forall|i: int| 0 <= i < tail.len() - 1 implies graph.has_link(
        #[trigger] tail[i],
        tail[i + 1],
    ) by {
        assert(graph.has_link(walk[i + at], walk[i + at + 1]));
    }
    assert forall|i: int| 0 <= i < tail.len() implies graph.has_node(#[trigger] tail[i]) by {
        assert(graph.has_node(walk[i + at]));
    }
}

/// Where the estimate is consistent, it never exceeds the cost of a walk to
/// the target plus the estimate at the walk's end.
pub proof fn lemma_consistent_along_walk(graph: Graph, target: NodeIndex, walk: Seq<NodeIndex>)
    requires
        graph.is_walk(walk),
        graph.consistent_toward(target),
    ensures
        graph.heuristic(walk[0], target) <= graph.cost(walk) + graph.heuristic(
            walk[walk.len() - 1],
            target,
        ),
    decreases walk.len(),
{
    if walk.len() > 1 {
        let rest = walk.subrange(1, walk.len() as int);
        lemma_walk_split(graph, walk, 1);
        lemma_consistent_along_walk(graph, target, rest);
        assert(graph.has_link(walk[0], walk[1]));
    }
}

/// Where every link weighs no less than the distance between its ends, the
/// straight-line estimate is consistent toward every target, and the search
/// finds a cheapest route.
pub proof fn lemma_reaching_weights_are_consistent(graph: Graph, target: NodeIndex)
    requires
        graph.weights_reach_distances(),
    ensures
        graph.consistent_toward(target),
{
    assert forall|from: NodeIndex, to: NodeIndex| #[trigger]
        graph.has_link(from, to) implies graph.heuristic(from, target) <= graph.weight(from, to)
        + graph.heuristic(to, target) by {
        let goal = graph.positions[target.0 as int];
        let here = graph.positions[from.0 as int];
        let next = graph.positions[to.0 as int];
        crate::vector::lemma_distance_symmetric(here, goal);
        crate::vector::lemma_distance_symmetric(next, goal);
        crate::vector::lemma_triangle_reached(here, next, goal, graph.weight(from, to));
    }
}

/// Links that weigh the distance between their ends, rounded down, or more,
/// weigh no less than the distance where every such distance is a whole
/// number. Where one is not, the rounded distance falls short of it, the
/// estimate need not be consistent, and the search may miss the cheapest
/// route.
pub proof fn lemma_whole_distances_reach(graph: Graph)
    requires
        forall|from: NodeIndex, to: NodeIndex| #[trigger]
            graph.has_link(from, to) ==> {
                let apart = distance(
                    graph.positions[from.0 as int],
                    graph.positions[to.0 as int],
                );
                &&& graph.weight(from, to) >= apart
                &&& apart * apart == sqr_distance(
                    graph.positions[from.0 as int],
                    graph.positions[to.0 as int],
                )
            },
    ensures
        graph.weights_reach_distances(),
{
    assert forall|from: NodeIndex, to: NodeIndex| #[trigger]
        graph.has_link(from, to) implies graph.weight(from, to) * graph.weight(from, to)
        >= sqr_distance(graph.positions[from.0 as int], graph.positions[to.0 as int]) by {
        let here = graph.positions[from.0 as int];
        let next = graph.positions[to.0 as int];
        crate::vector::lemma_distance_bounds(here, next);
        crate::numeric::lemma_square_monotone(distance(here, next), graph.weight(from, to));
    }
}

/// A link that weighs more than the distance between its ends, rounded
/// down, weighs no less than the distance.
pub proof fn lemma_covering_weights_reach(graph: Graph)
    requires
        graph.weights_cover_distances(),
    ensures
        graph.weights_reach_distances(),
{
    assert forall|from: NodeIndex, to: NodeIndex| #[trigger]
        graph.has_link(from, to) implies graph.weight(from, to) * graph.weight(from, to)
        >= sqr_distance(graph.positions[from.0 as int], graph.positions[to.0 as int]) by {
        let here = graph.positions[from.0 as int];
        let next = graph.positions[to.0 as int];
        crate::vector::lemma_sqr_distance_bounds(here, next);
        crate::numeric::lemma_int_sqrt_exists(sqr_distance(here, next));
        crate::numeric::lemma_square_monotone(distance(here, next) + 1, graph.weight(from, to));
    }
}

/// Where every link weighs more than the distance between its ends, the
/// straight-line estimate is consistent toward every target.
pub proof fn lemma_covering_weights_are_consistent(graph: Graph, target: NodeIndex)
    requires
        graph.weights_cover_distances(),
    ensures
        graph.consistent_toward(target),
{
    lemma_covering_weights_reach(graph);
    lemma_reaching_weights_are_consistent(graph, target);
}

/// A walk costs no less in a graph whose links are no lighter.
pub proof fn lemma_cost_monotone(heavier: Graph, lighter: Graph, walk: Seq<NodeIndex>)
    requires
        heavier.no_lighter_than(lighter),
        lighter.is_walk(walk),
    ensures
        heavier.is_walk(walk),
        lighter.cost(walk) <= heavier.cost(walk),
    decreases walk.len(),
{
    assert forall|i: int| 0 <= i < walk.len() - 1 implies heavier.has_link(
        #[trigger] walk[i],
        walk[i + 1],
    ) by {
        assert(lighter.has_link(walk[i], walk[i + 1]));
    }
    assert forall|i: int| 0 <= i < walk.len() implies heavier.has_node(#[trigger] walk[i]) by {
        assert(lighter.has_node(walk[i]));
    }
    if walk.len() > 1 {
        lemma_walk_split(lighter, walk, 1);
        lemma_cost_monotone(heavier, lighter, walk.subrange(1, walk.len() as int));
        assert(lighter.has_link(walk[0], walk[1]));
        assert(heavier.has_link(walk[0], walk[1]));
    }
}

/// Making links heavier never makes the best route cheaper: a route found
/// after the weights were raised costs at least as much as the cheapest route
/// did before.
pub proof fn lemma_reweighting_never_cheapens(
    before: Graph,
    after: Graph,
    start: NodeIndex,
    end: NodeIndex,
    route_before: Seq<NodeIndex>,
    route_after: Seq<NodeIndex>,
)
    requires
        after.no_lighter_than(before),
        before.is_cheapest_route(start, end, route_before),
        after.is_route(start, end, route_after),
    ensures
        before.cost(route_before) <= after.cost(route_after),
{
    assert(before.weights.dom() == after.weights.dom());
    assert forall|i: int| 0 <= i < route_after.len() - 1 implies before.has_link(
        #[trigger] route_after[i],
        route_after[i + 1],
    ) by {
        assert(after.has_link(route_after[i], route_after[i + 1]));
    }
    assert forall|i: int| 0 <= i < route_after.len() implies before.has_node(
        #[trigger] route_after[i],
    ) by {
        assert(after.has_node(route_after[i]));
    }
    assert(before.is_route(start, end, route_after));
    lemma_cost_monotone(after, before, route_after);
}

} // verus!
