//! Best-first search for the cheapest route between two nodes of a waypoint
//! graph.
//!
//! The search estimates what is left of a way by the straight line to the
//! target. It closes the first of the open nodes with the least estimated
//! total at each step, and keeps for each node the first of the cheapest ways
//! that it finds to it: [`searched_route`] is the route that comes of this.
//! It is a cheapest route where every link weighs no less than the distance
//! between its ends.

use crate::graph::Graph;
use crate::vector::{distance, distance_between, Vector};
use vstd::prelude::*;
use vstd::std_specs::convert::FromSpecImpl;

verus! {

/// Represents an index for a node.
/// Prevents unsigned integers which were intended for other purposes from
/// being used as node indexes by accident.
#[derive(Debug, Clone, Copy, PartialEq, Eq, Structural)]
pub struct NodeIndex(pub usize);

impl From<usize> for NodeIndex {
    fn from(value: usize) -> (index: Self) {
        Self(value)
    }
}

impl FromSpecImpl<usize> for NodeIndex {
    open spec fn obeys_from_spec() -> bool {
        true
    }

    open spec fn from_spec(value: usize) -> Self {
        NodeIndex(value)
    }
}

/// Represents a connection between two nodes with a calculated weight.
#[derive(Debug, Clone, Copy, PartialEq, Eq, Structural)]
pub struct Connection {
    pub start: NodeIndex,
    pub end: NodeIndex,
    pub weight: u64,
}

impl From<(usize, usize, u64)> for Connection {
    fn from(value: (usize, usize, u64)) -> (connection: Self) {
        Self { start: NodeIndex(value.0), end: NodeIndex(value.1), weight: value.2 }
    }
}

impl FromSpecImpl<(usize, usize, u64)> for Connection {
    open spec fn obeys_from_spec() -> bool {
        true
    }

    open spec fn from_spec(value: (usize, usize, u64)) -> Self {
        Connection { start: NodeIndex(value.0), end: NodeIndex(value.1), weight: value.2 }
    }
}

/// The search found no way from the start to the end.
#[derive(Debug, Clone, Copy, PartialEq, Eq, Structural)]
pub struct PathNotFound;

/// What a [`Node`] holds.
pub struct NodeView {
    /// Where the node lies.
    pub position: Vector,
    /// The cost of the cheapest way found from the start, once the search has
    /// reached the node.
    pub g_cost: Option<int>,
    /// The estimated cost from the node to the target, once calculated.
    pub h_cost: Option<int>,
    /// The node before this one on the cheapest way found from the start.
    pub parent: Option<NodeIndex>,
}

/// Represents a node for the search, with a position, the cost from the
/// start, the estimated cost to the target, and the previous node on the way.
#[derive(Debug, Clone, Copy, PartialEq, Eq)]
pub struct Node {
    position: Vector,
    g_cost: Option<u128>,
    h_cost: Option<u64>,  // this is only evaluated once
    parent: Option<NodeIndex>,
}

impl View for Node {
    type V = NodeView;

    closed spec fn view(&self) -> NodeView {
        NodeView {
            position: self.position,
            g_cost: match self.g_cost {
                Some(cost) => Some(cost as int),
                None => None,
            },
            h_cost: match self.h_cost {
                Some(cost) => Some(cost as int),
                None => None,
            },
            parent: self.parent,
        }
    }
}

impl Node {
    /// Gets the h_cost, without reevaluating it if it's already been
    /// evaluated once.
    fn h_cost_calculate(&mut self, target: &Node) -> (cost: u64)
        ensures
            final(self).position == old(self).position,
            final(self).g_cost == old(self).g_cost,
            final(self).parent == old(self).parent,
            final(self).h_cost == Some(cost),
            match old(self).h_cost {
                Some(known) => cost == known,
                None => cost == distance(target.position, old(self).position),
            },
    {
        if let Some(h_cost) = self.h_cost {
            h_cost
        } else {
            let cost = distance_between(target.position, self.position);
            self.h_cost = Some(cost);
            cost
        }
    }

    /// Gets the h_cost of this node, which has been calculated.
    fn h_cost(&self) -> (cost: u64)
        requires
            self.h_cost is Some,
        ensures
            Some(cost) == self.h_cost,
    {
        match self.h_cost {
            Some(h_cost) => h_cost,
            None => 0,
        }
    }

    /// Sets the g_cost of this node, based on the fact that the shortest
    /// route to it is from a given parent node.
    fn set_g_cost(
        &mut self,
        parent: &Node,
        parent_index: NodeIndex,
        this_index: NodeIndex,
        connections: &Vec<Connection>,
    )
        requires
            has_connection(connections@, parent_index, this_index),
            distinct_connections(connections@),
            parent.g_cost is Some,
            parent.g_cost->0 + u64::MAX <= u128::MAX,
        ensures
            final(self).position == old(self).position,
            final(self).h_cost == old(self).h_cost,
            final(self).parent == Some(parent_index),
            final(self).g_cost == Some(
                (parent.g_cost->0 + link_weights(connections@)[(parent_index, this_index)]) as u128,
            ),
    {
        self.parent = Some(parent_index);
        let weight = find_weight(connections, parent_index, this_index);
        match parent.g_cost {
            Some(cost) => {
                self.g_cost = Some(cost + weight as u128);
            },
            None => {},
        }
    }

    /// Gets the position of this node.
    pub fn position(&self) -> (position: Vector)
        ensures
            position == self@.position,
    {
        self.position
    }

    /// Constructs a node which the search has not reached.
    pub fn new(position: Vector) -> (node: Self)
        ensures
            node@ == (NodeView { position, g_cost: None, h_cost: None, parent: None }),
    {
        Self { position, g_cost: None, h_cost: None, parent: None }
    }

    /// Calculates the h_cost and f_cost, if the g_cost has been calculated.
    pub fn f_cost_calculate(&mut self, target: &Node) -> (f_cost: Option<u128>)
        requires
            old(self)@.g_cost is Some ==> old(self)@.g_cost->0 + u64::MAX <= u128::MAX,
        ensures
            final(self)@.position == old(self)@.position,
            final(self)@.g_cost == old(self)@.g_cost,
            final(self)@.parent == old(self)@.parent,
            match old(self)@.g_cost {
                None => f_cost is None && final(self)@.h_cost == old(self)@.h_cost,
                Some(g_cost) => {
                    &&& final(self)@.h_cost == Some(
                        match old(self)@.h_cost {
                            Some(known) => known,
                            None => distance(target@.position, old(self)@.position),
                        },
                    )
                    &&& f_cost is Some
                    &&& f_cost->0 == g_cost + final(self)@.h_cost->0
                },
            },
    {
        match self.g_cost {
            Some(g_cost) => {
                let h_cost = self.h_cost_calculate(target);
                Some(g_cost + h_cost as u128)
            },
            None => None,
        }
    }

    /// Gets the f_cost, if the g_cost has been calculated.
    pub fn f_cost(&self) -> (f_cost: Option<u128>)
        requires
            self@.g_cost is Some ==> self@.h_cost is Some,
            self@.g_cost is Some ==> self@.g_cost->0 + u64::MAX <= u128::MAX,
        ensures
            match self@.g_cost {
                None => f_cost is None,
                Some(g_cost) => f_cost is Some && f_cost->0 == g_cost + self@.h_cost->0,
            },
    {
        match self.g_cost {
            Some(g_cost) => Some(g_cost + self.h_cost() as u128),
            None => None,
        }
    }
}

/// Whether `connections` holds a connection from `from` to `to`.
pub open spec fn has_connection(connections: Seq<Connection>, from: NodeIndex, to: NodeIndex) -> bool {
    exists|i: int|
        0 <= i < connections.len() && (#[trigger] connections[i]).start == from && connections[i].end
            == to
}

/// The place in `connections` of a connection from `from` to `to`.
pub open spec fn connection_index(
    connections: Seq<Connection>,
    from: NodeIndex,
    to: NodeIndex,
) -> int {
    choose|i: int|
        0 <= i < connections.len() && (#[trigger] connections[i]).start == from && connections[i].end
            == to
}

/// Whether no two connections share both endpoints.
pub open spec fn distinct_connections(connections: Seq<Connection>) -> bool {
    forall|i: int, j: int|
        0 <= i < j < connections.len() ==> !((#[trigger] connections[i]).start == (
        #[trigger] connections[j]).start && connections[i].end == connections[j].end)
}

/// The weight of each link that `connections` holds.
pub open spec fn link_weights(connections: Seq<Connection>) -> Map<(NodeIndex, NodeIndex), u64> {
    Map::new(
        |link: (NodeIndex, NodeIndex)| has_connection(connections, link.0, link.1),
        |link: (NodeIndex, NodeIndex)| connections[connection_index(connections, link.0, link.1)].weight,
    )
}

/// Among distinct connections, each is the one that is found for its
/// endpoints.
pub proof fn lemma_connection_found(connections: Seq<Connection>, i: int)
    requires
        distinct_connections(connections),
        0 <= i < connections.len(),
    ensures
        has_connection(connections, connections[i].start, connections[i].end),
        connection_index(connections, connections[i].start, connections[i].end) == i,
        link_weights(connections).dom().contains((connections[i].start, connections[i].end)),
        link_weights(connections)[(connections[i].start, connections[i].end)]
            == connections[i].weight,
{
    let j = connection_index(connections, connections[i].start, connections[i].end);
    assert(connections[j].start == connections[i].start && connections[j].end == connections[i].end);
    if i < j {
        assert(!(connections[i].start == connections[j].start && connections[i].end
            == connections[j].end));
    }
    if j < i {
        assert(!(connections[j].start == connections[i].start && connections[j].end
            == connections[i].end));
    }
}

/// Looks up the weight of the connection from `from` to `to`.
fn find_weight(connections: &Vec<Connection>, from: NodeIndex, to: NodeIndex) -> (weight: u64)
    requires
        has_connection(connections@, from, to),
        distinct_connections(connections@),
    ensures
        weight == link_weights(connections@)[(from, to)],
{
    let mut i: usize = 0;
    while i < connections.len()
        invariant
            i <= connections.len(),
            has_connection(connections@, from, to),
            distinct_connections(connections@),
            forall|k: int|
                0 <= k < i ==> !((#[trigger] connections@[k]).start == from && connections@[k].end
                    == to),
        decreases connections.len() - i,
    {
        if connections[i].start.0 == from.0 && connections[i].end.0 == to.0 {
            proof {
                lemma_connection_found(connections@, i as int);
            }
            return connections[i].weight;
        }
        i += 1;
    }
    proof {
        let found = connection_index(connections@, from, to);
        assert(connections@[found].start == from && connections@[found].end == to);
    }
    0
}


/// Whether `list` holds `node`.
fn contains_node(list: &Vec<NodeIndex>, node: NodeIndex) -> (found: bool)
    ensures
        found == list@.contains(node),
{
    let mut i: usize = 0;
    while i < list.len()
        invariant
            i <= list.len(),
            forall|k: int| 0 <= k < i ==> list@[k] != node,
        decreases list.len() - i,
    {
        if list[i].0 == node.0 {
            return true;
        }
        i += 1;
    }
    false
}

/// Whether some pair of `connections` names a node that a list of `count`
/// nodes does not hold.
pub open spec fn names_missing_node(connections: Seq<(usize, usize)>, count: int) -> bool {
    exists|i: int|
        0 <= i < connections.len() && ((#[trigger] connections[i]).0 >= count || connections[i].1
            >= count)
}

/// Whether `pairs` holds the pair from `from` to `to`.
pub open spec fn names_pair(pairs: Seq<(usize, usize)>, from: NodeIndex, to: NodeIndex) -> bool {
    exists|i: int| 0 <= i < pairs.len() && #[trigger] pairs[i] == (from.0, to.0)
}

/// The links that `connections` make, in their order.
pub open spec fn links_of(connections: Seq<Connection>) -> Seq<(NodeIndex, NodeIndex)> {
    Seq::new(connections.len(), |i: int| (connections[i].start, connections[i].end))
}

/// The links that connections make hold a link where the connections hold
/// a connection between its ends.
pub proof fn lemma_links_hold(connections: Seq<Connection>, from: NodeIndex, to: NodeIndex)
    ensures
        links_of(connections).contains((from, to)) <==> has_connection(connections, from, to),
{
    let links = links_of(connections);
    if links.contains((from, to)) {
        let i = choose|i: int| 0 <= i < links.len() && links[i] == (from, to);
        assert(connections[i].start == from && connections[i].end == to);
    }
    if has_connection(connections, from, to) {
        let i = connection_index(connections, from, to);
        assert(links[i] == (from, to));
    }
}

/// The links that `pairs` name, each once, in the order in which they are
/// first named.
pub open spec fn first_pairs(pairs: Seq<(usize, usize)>) -> Seq<(NodeIndex, NodeIndex)>
    decreases pairs.len(),
{
    if pairs.len() == 0 {
        Seq::empty()
    } else {
        let before = first_pairs(pairs.drop_last());
        let last = (NodeIndex(pairs.last().0), NodeIndex(pairs.last().1));
        if before.contains(last) {
            before
        } else {
            before.push(last)
        }
    }
}

/// The nodes to which `links` lead from `node`, in the order of the links.
pub open spec fn ends_from(links: Seq<(NodeIndex, NodeIndex)>, node: NodeIndex) -> Seq<NodeIndex>
    decreases links.len(),
{
    if links.len() == 0 {
        Seq::empty()
    } else {
        let before = ends_from(links.drop_last(), node);
        if links.last().0 == node {
            before.push(links.last().1)
        } else {
            before
        }
    }
}

/// What a search knows at a moment: the cost of the cheapest way that it has
/// found to each node, the node before each node on that way, the nodes that
/// it has found and not yet left, in the order in which it found them, and the
/// nodes that it has left, in the order in which it left them.
pub struct Frontier {
    pub costs: Seq<Option<int>>,
    pub parents: Seq<Option<NodeIndex>>,
    pub open: Seq<NodeIndex>,
    pub closed: Seq<NodeIndex>,
}

/// The first place in `totals` of its least number.
pub open spec fn first_least(totals: Seq<int>) -> int
    decreases totals.len(),
{
    if totals.len() <= 1 {
        0
    } else {
        let before = first_least(totals.drop_last());
        if totals.last() < totals[before] {
            totals.len() - 1
        } else {
            before
        }
    }
}

/// For each open node, the cost of the way found to it and the estimate
/// from it to `target` together.
pub open spec fn estimated_totals(graph: Graph, target: NodeIndex, known: Frontier) -> Seq<int> {
    Seq::new(
        known.open.len(),
        |i: int| known.costs[known.open[i].0 as int]->0 + graph.heuristic(known.open[i], target),
    )
}

/// What the search knows once it has looked along the link from `current`
/// to `to`: nothing new where `to` is closed; else the way through `current`
/// is the way to `to` where `to` had none, or a dearer one, or was not open,
/// and `to` is open, at the end of the list where it was not.
pub open spec fn relax_link(graph: Graph, known: Frontier, current: NodeIndex, to: NodeIndex) -> Frontier {
    let cost = known.costs[current.0 as int]->0 + graph.weight(current, to);
    if known.closed.contains(to) {
        known
    } else if known.costs[to.0 as int] is None || known.costs[to.0 as int]->0 > cost
        || !known.open.contains(to) {
        Frontier {
            costs: known.costs.update(to.0 as int, Some(cost)),
            parents: known.parents.update(to.0 as int, Some(current)),
            open: if known.open.contains(to) {
                known.open
            } else {
                known.open.push(to)
            },
            closed: known.closed,
        }
    } else {
        known
    }
}

/// What the search knows once it has looked along the links from `current`
/// to the first `upto` of `ends`, one after the other.
pub open spec fn relax_links(
    graph: Graph,
    known: Frontier,
    current: NodeIndex,
    ends: Seq<NodeIndex>,
    upto: int,
) -> Frontier
    decreases upto,
{
    if upto <= 0 {
        known
    } else {
        relax_link(graph, relax_links(graph, known, current, ends, upto - 1), current, ends[upto - 1])
    }
}

/// What the search knows after one step: it closes the first of the open
/// nodes with the least estimated total, and, unless that is the target, looks
/// along the links that leave it, in their order.
pub open spec fn expand_first(
    graph: Graph,
    links: Seq<(NodeIndex, NodeIndex)>,
    target: NodeIndex,
    known: Frontier,
) -> Frontier {
    let best = first_least(estimated_totals(graph, target, known));
    let current = known.open[best];
    let left = Frontier {
        costs: known.costs,
        parents: known.parents,
        open: known.open.remove(best),
        closed: known.closed.push(current),
    };
    if current == target {
        left
    } else {
        let ends = ends_from(links, current);
        relax_links(graph, left, current, ends, ends.len() as int)
    }
}

/// Whether the search has ended: no node is open, or the target was closed
/// last.
pub open spec fn search_ended(target: NodeIndex, known: Frontier) -> bool {
    known.open.len() == 0 || (known.closed.len() > 0 && known.closed.last() == target)
}

/// What the search knows after `steps` steps at most, or at its end.
pub open spec fn search_from(
    graph: Graph,
    links: Seq<(NodeIndex, NodeIndex)>,
    target: NodeIndex,
    known: Frontier,
    steps: nat,
) -> Frontier
    decreases steps,
{
    if steps == 0 || search_ended(target, known) {
        known
    } else {
        search_from(
            graph,
            links,
            target,
            expand_first(graph, links, target, known),
            (steps - 1) as nat,
        )
    }
}

/// What a search from `start` knows before its first step, among `count`
/// nodes.
pub open spec fn search_start(count: nat, start: NodeIndex) -> Frontier {
    Frontier {
        costs: Seq::new(
            count,
            |i: int|
                if i == start.0 {
                    Some(0int)
                } else {
                    None
                },
        ),
        parents: Seq::new(count, |i: int| None),
        open: seq![start],
        closed: Seq::empty(),
    }
}

/// The way to `node` that `parents` tell, `steps` long at most.
pub open spec fn way_back(parents: Seq<Option<NodeIndex>>, node: NodeIndex, steps: nat) -> Seq<
    NodeIndex,
>
    decreases steps,
{
    if steps == 0 {
        seq![node]
    } else {
        match parents[node.0 as int] {
            Some(parent) => way_back(parents, parent, (steps - 1) as nat).push(node),
            None => seq![node],
        }
    }
}

/// The route that the search finds from `start` to `end`, with the straight
/// line as its estimate: through each node by the first of the cheapest ways
/// that were found to it, the first open node of the least estimated total
/// being closed at each step. Nothing where no link leads on before `end` is
/// closed.
pub open spec fn searched_route(
    graph: Graph,
    links: Seq<(NodeIndex, NodeIndex)>,
    start: NodeIndex,
    end: NodeIndex,
) -> Option<Seq<NodeIndex>> {
    let count = graph.positions.len();
    let known = search_from(graph, links, end, search_start(count, start), count);
    if known.closed.len() > 0 && known.closed.last() == end {
        Some(way_back(known.parents, end, count))
    } else {
        None
    }
}

/// The first place of the least number is a place of the list.
pub proof fn lemma_first_least_in_range(totals: Seq<int>)
    requires
        totals.len() > 0,
    ensures
        0 <= first_least(totals) < totals.len(),
    decreases totals.len(),
{
    if totals.len() > 1 {
        lemma_first_least_in_range(totals.drop_last());
    }
}

/// A place whose number is the least, and less than all before it, is the
/// first place of the least number.
pub proof fn lemma_first_least(totals: Seq<int>, best: int)
    requires
        0 <= best < totals.len(),
        forall|i: int| 0 <= i < totals.len() ==> totals[best] <= #[trigger] totals[i],
        forall|i: int| 0 <= i < best ==> totals[best] < #[trigger] totals[i],
    ensures
        first_least(totals) == best,
    decreases totals.len(),
{
    if totals.len() > 1 {
        let before = totals.drop_last();
        lemma_first_least_in_range(before);
        if best < totals.len() - 1 {
            assert forall|i: int| 0 <= i < before.len() implies before[best] <= #[trigger] before[i] by {
                assert(before[i] == totals[i]);
            }
            assert forall|i: int| 0 <= i < best implies before[best] < #[trigger] before[i] by {
                assert(before[i] == totals[i]);
            }
            lemma_first_least(before, best);
        } else {
            let found = first_least(before);
            assert(before[found] == totals[found]);
        }
    }
}

/// Represents all of the data required for the search.
#[derive(Debug, Clone)]
pub struct Pathfinder {
    nodes: Vec<Node>,
    connections: Vec<Connection>,
    best_route: Option<Vec<NodeIndex>>,
}

impl Pathfinder {
    /// The pathfinder has a node, its connections join nodes that it has, no
    /// two of them share both endpoints, and the route that it remembers, if
    /// any, is a walk along them.
    pub closed spec fn wf(&self) -> bool {
        &&& self.nodes@.len() > 0
        &&& forall|i: int|
            0 <= i < self.connections@.len() ==> (#[trigger] self.connections@[i]).start.0
                < self.nodes@.len() && self.connections@[i].end.0 < self.nodes@.len()
        &&& distinct_connections(self.connections@)
        &&& match self.best_route {
            Some(route) => self.graph().is_walk(route@),
            None => true,
        }
    }

    /// The graph that the pathfinder searches.
    pub closed spec fn graph(&self) -> Graph {
        Graph {
            positions: Seq::new(self.nodes@.len(), |i: int| self.nodes@[i].position),
            weights: link_weights(self.connections@),
        }
    }

    /// The links between the nodes, in their order.
    pub closed spec fn links(&self) -> Seq<(NodeIndex, NodeIndex)> {
        links_of(self.connections@)
    }

    /// The state of each node, by index.
    pub closed spec fn nodes(&self) -> Seq<NodeView> {
        Seq::new(self.nodes@.len(), |i: int| self.nodes@[i]@)
    }

    /// The route that the pathfinder remembers, as the nodes it visits.
    pub closed spec fn route(&self) -> Option<Seq<NodeIndex>> {
        match self.best_route {
            Some(route) => Some(route@),
            None => None,
        }
    }

    /// Whether every estimate that a node remembers is the straight-line
    /// distance from that node to `target`.
    pub closed spec fn estimates_toward(&self, target: NodeIndex) -> bool {
        forall|i: int|
            0 <= i < self.nodes@.len() ==> match (#[trigger] self.nodes@[i]).h_cost {
                Some(cost) => cost == distance(
                    self.nodes@[target.0 as int].position,
                    self.nodes@[i].position,
                ),
                None => true,
            }
    }

    /// The graph of a well-formed pathfinder is well-formed.
    pub proof fn lemma_graph_wf(&self)
        requires
            self.wf(),
        ensures
            self.graph().wf(),
            self.graph().positions.len() == self.nodes().len(),
            forall|i: int|
                0 <= i < self.nodes().len() ==> (#[trigger] self.nodes()[i]).position
                    == self.graph().positions[i],
    {
        let graph = self.graph();
        assert forall|from: NodeIndex, to: NodeIndex| #[trigger]
            graph.has_link(from, to) implies graph.has_node(from) && graph.has_node(to) by {
            let i = connection_index(self.connections@, from, to);
            assert(self.connections@[i].start == from && self.connections@[i].end == to);
        }
    }

    /// A pathfinder whose nodes remember no estimate holds no estimate that is
    /// wrong, whatever the target.
    pub proof fn lemma_fresh_estimates(&self, target: NodeIndex)
        requires
            forall|i: int| 0 <= i < self.nodes().len() ==> (#[trigger] self.nodes()[i]).h_cost is None,
        ensures
            self.estimates_toward(target),
    {
        assert forall|i: int| 0 <= i < self.nodes@.len() implies (
        #[trigger] self.nodes@[i]).h_cost is None by {
            assert(self.nodes()[i].h_cost is None);
        }
    }

    /// Constructs a new pathfinder, if the given inputs are valid.
    pub fn new<F: Fn(Vector, Vector) -> u64>(
        nodes: &Vec<Vector>,
        connections: &Vec<(usize, usize)>,
        weight_calculation: F,
    ) -> (pathfinder: Option<Self>)
        requires
            forall|i: int|
                0 <= i < connections@.len() && (#[trigger] connections@[i]).0 < nodes@.len()
                    && connections@[i].1 < nodes@.len() ==> weight_calculation.requires(
                    (nodes@[connections@[i].0 as int], nodes@[connections@[i].1 as int]),
                ),
        ensures
            pathfinder is None <==> nodes@.len() == 0 || names_missing_node(
                connections@,
                nodes@.len() as int,
            ),
            pathfinder matches Some(found) ==> {
                &&& found.wf()
                &&& found.graph().positions == nodes@
                &&& forall|from: NodeIndex, to: NodeIndex|
                    found.graph().has_link(from, to) <==> names_pair(connections@, from, to)
                &&& forall|from: NodeIndex, to: NodeIndex| #[trigger]
                    found.graph().has_link(from, to) ==> weight_calculation.ensures(
                        (nodes@[from.0 as int], nodes@[to.0 as int]),
                        found.graph().weights[(from, to)],
                    )
                &&& found.route() is None
                &&& found.nodes() == Seq::new(
                    nodes@.len(),
                    |i: int| NodeView { position: nodes@[i], g_cost: None, h_cost: None, parent: None },
                )
                &&& found.links() == first_pairs(connections@)
            },
    {
        if nodes.len() == 0 {
            return None;
        }
        let mut checked: usize = 0;
        while checked < connections.len()
            invariant
                checked <= connections.len(),
                forall|k: int|
                    0 <= k < checked ==> (#[trigger] connections@[k]).0 < nodes@.len()
                        && connections@[k].1 < nodes@.len(),
            decreases connections.len() - checked,
        {
            if connections[checked].0 >= nodes.len() || connections[checked].1 >= nodes.len() {
                return None;
            }
            checked += 1;
        }
        let mut final_connections: Vec<Connection> = Vec::with_capacity(connections.len());
        let mut taken: usize = 0;
        while taken < connections.len()
            invariant
                taken <= connections.len(),
                forall|i: int|
                    0 <= i < connections@.len() && (#[trigger] connections@[i]).0 < nodes@.len()
                        && connections@[i].1 < nodes@.len() ==> weight_calculation.requires(
                        (nodes@[connections@[i].0 as int], nodes@[connections@[i].1 as int]),
                    ),
                forall|k: int|
                    0 <= k < connections@.len() ==> (#[trigger] connections@[k]).0 < nodes@.len()
                        && connections@[k].1 < nodes@.len(),
                distinct_connections(final_connections@),
                forall|k: int|
                    0 <= k < final_connections@.len() ==> {
                        &&& names_pair(
                            connections@,
                            (#[trigger] final_connections@[k]).start,
                            final_connections@[k].end,
                        )
                        &&& weight_calculation.ensures(
                            (
                                nodes@[final_connections@[k].start.0 as int],
                                nodes@[final_connections@[k].end.0 as int],
                            ),
                            final_connections@[k].weight,
                        )
                    },
                forall|k: int|
                    0 <= k < taken ==> has_connection(
                        final_connections@,
                        NodeIndex((#[trigger] connections@[k]).0),
                        NodeIndex(connections@[k].1),
                    ),
                links_of(final_connections@) == first_pairs(connections@.subrange(0, taken as int)),
            decreases connections.len() - taken,
        {
            let (a, b) = connections[taken];
            assert(connections@[taken as int].0 < nodes@.len());
            proof {
                let named = connections@.subrange(0, taken + 1);
                assert(named.drop_last() =~= connections@.subrange(0, taken as int));
                assert(named.last() == (a, b));
                lemma_links_hold(final_connections@, NodeIndex(a), NodeIndex(b));
            }
            if !holds_connection(&final_connections, NodeIndex(a), NodeIndex(b)) {
                let ghost before = final_connections@;
                let weight = weight_calculation(nodes[a], nodes[b]);
                final_connections.push(Connection::from((a, b, weight)));
                proof {
                    let added = before.len() as int;
                    assert(final_connections@[added].start == NodeIndex(a));
                    assert(final_connections@[added].end == NodeIndex(b));
                    assert(links_of(final_connections@) =~= links_of(before).push(
                        (NodeIndex(a), NodeIndex(b)),
                    ));
                    assert(connections@[taken as int] == (a, b));
                    assert forall|k: int| 0 <= k <= taken implies has_connection(
                        final_connections@,
                        NodeIndex((#[trigger] connections@[k]).0),
                        NodeIndex(connections@[k].1),
                    ) by {
                        if k < taken {
                            let at = connection_index(
                                before,
                                NodeIndex(connections@[k].0),
                                NodeIndex(connections@[k].1),
                            );
                            assert(final_connections@[at] == before[at]);
                        } else {
                            assert(final_connections@[added].end == NodeIndex(b));
                        }
                    }
                    assert forall|i: int, j: int|
                        0 <= i < j < final_connections@.len() implies !((
                    #[trigger] final_connections@[i]).start == (
                    #[trigger] final_connections@[j]).start && final_connections@[i].end
                        == final_connections@[j].end) by {
                        if j == added {
                            assert(before[i] == final_connections@[i]);
                        } else {
                            assert(before[i] == final_connections@[i]);
                            assert(before[j] == final_connections@[j]);
                        }
                    }
                }
            }
            taken += 1;
        }
        let mut node_list: Vec<Node> = Vec::with_capacity(nodes.len());
        let mut made: usize = 0;
        while made < nodes.len()
            invariant
                made <= nodes.len(),
                node_list@.len() == made,
                forall|k: int|
                    0 <= k < made ==> (#[trigger] node_list@[k])@ == (NodeView {
                        position: nodes@[k],
                        g_cost: None,
                        h_cost: None,
                        parent: None,
                    }),
            decreases nodes.len() - made,
        {
            node_list.push(Node::new(nodes[made]));
            made += 1;
        }
        let found = Self { nodes: node_list, connections: final_connections, best_route: None };
        proof {
            assert(connections@.subrange(0, connections@.len() as int) =~= connections@);
            assert(found.graph().positions =~= nodes@);
            assert(found.nodes() =~= Seq::new(
                nodes@.len(),
                |i: int| NodeView { position: nodes@[i], g_cost: None, h_cost: None, parent: None },
            ));
            assert forall|i: int| 0 <= i < found.connections@.len() implies (
            #[trigger] found.connections@[i]).start.0 < found.nodes@.len()
                && found.connections@[i].end.0 < found.nodes@.len() by {
                let pair = choose|k: int|
                    0 <= k < connections@.len() && #[trigger] connections@[k] == (
                        found.connections@[i].start.0,
                        found.connections@[i].end.0,
                    );
                assert(connections@[pair].0 < nodes@.len());
            }
            assert forall|from: NodeIndex, to: NodeIndex|
                found.graph().has_link(from, to) <==> names_pair(connections@, from, to) by {
                if found.graph().has_link(from, to) {
                    let i = connection_index(found.connections@, from, to);
                    assert(found.connections@[i].start == from);
                }
                if names_pair(connections@, from, to) {
                    let k = choose|k: int|
                        0 <= k < connections@.len() && #[trigger] connections@[k] == (from.0, to.0);
                    assert(has_connection(
                        found.connections@,
                        NodeIndex(connections@[k].0),
                        NodeIndex(connections@[k].1),
                    ));
                }
            }
            assert forall|from: NodeIndex, to: NodeIndex| #[trigger]
                found.graph().has_link(from, to) implies weight_calculation.ensures(
                (nodes@[from.0 as int], nodes@[to.0 as int]),
                found.graph().weights[(from, to)],
            ) by {
                let i = connection_index(found.connections@, from, to);
                assert(found.connections@[i].start == from);
            }
        }
        Some(found)
    }

    /// Recalculates the weights of connections between nodes given a function
    /// to calculate those weights, and forgets the best route.
    pub fn recalculate_weights<F: Fn(Vector, Vector) -> u64>(&mut self, weight_calculation: F)
        requires
            old(self).wf(),
            forall|from: NodeIndex, to: NodeIndex| #[trigger]
                old(self).graph().has_link(from, to) ==> weight_calculation.requires(
                    (
                        old(self).graph().positions[from.0 as int],
                        old(self).graph().positions[to.0 as int],
                    ),
                ),
        ensures
            final(self).wf(),
            final(self).graph().positions == old(self).graph().positions,
            final(self).graph().weights.dom() == old(self).graph().weights.dom(),
            forall|from: NodeIndex, to: NodeIndex| #[trigger]
                final(self).graph().has_link(from, to) ==> weight_calculation.ensures(
                    (
                        final(self).graph().positions[from.0 as int],
                        final(self).graph().positions[to.0 as int],
                    ),
                    final(self).graph().weights[(from, to)],
                ),
            final(self).nodes() == old(self).nodes(),
            final(self).links() == old(self).links(),
            final(self).route() is None,
            forall|target: NodeIndex|
                old(self).estimates_toward(target) ==> final(self).estimates_toward(target),
    {
        let count = self.connections.len();
        let mut i: usize = 0;
        while i < count
            invariant
                i <= count,
                count == self.connections@.len(),
                self.nodes == old(self).nodes,
                self.connections@.len() == old(self).connections@.len(),
                distinct_connections(old(self).connections@),
                forall|from: NodeIndex, to: NodeIndex| #[trigger]
                    old(self).graph().has_link(from, to) ==> weight_calculation.requires(
                        (
                            old(self).graph().positions[from.0 as int],
                            old(self).graph().positions[to.0 as int],
                        ),
                    ),
                forall|k: int|
                    0 <= k < count ==> (#[trigger] self.connections@[k]).start == old(
                        self,
                    ).connections@[k].start && self.connections@[k].end == old(
                        self,
                    ).connections@[k].end,
                forall|k: int|
                    0 <= k < count ==> (#[trigger] old(self).connections@[k]).start.0
                        < self.nodes@.len() && old(self).connections@[k].end.0 < self.nodes@.len(),
                forall|k: int|
                    0 <= k < i ==> weight_calculation.ensures(
                        (
                            self.nodes@[(#[trigger] self.connections@[k]).start.0 as int].position,
                            self.nodes@[self.connections@[k].end.0 as int].position,
                        ),
                        self.connections@[k].weight,
                    ),
            decreases count - i,
        {
            let connection = self.connections[i];
            proof {
                lemma_connection_found(old(self).connections@, i as int);
                assert(old(self).graph().has_link(connection.start, connection.end));
            }
            let weight = weight_calculation(
                self.nodes[connection.start.0].position,
                self.nodes[connection.end.0].position,
            );
            self.connections[i].weight = weight;
            i += 1;
        }
        self.best_route = None;
        proof {
            let before = old(self).connections@;
            let after = self.connections@;
            assert(links_of(after) =~= links_of(before));
            assert forall|a: int, b: int| 0 <= a < b < after.len() implies !((
            #[trigger] after[a]).start == (#[trigger] after[b]).start && after[a].end
                == after[b].end) by {
                assert(!(before[a].start == before[b].start && before[a].end == before[b].end));
            }
            assert forall|link: (NodeIndex, NodeIndex)|
                has_connection(after, link.0, link.1) <==> has_connection(
                    before,
                    link.0,
                    link.1,
                ) by {
                if has_connection(after, link.0, link.1) {
                    let k = connection_index(after, link.0, link.1);
                    assert(before[k].start == link.0 && before[k].end == link.1);
                }
                if has_connection(before, link.0, link.1) {
                    let k = connection_index(before, link.0, link.1);
                    assert(after[k].start == link.0 && after[k].end == link.1);
                }
            }
            assert(self.graph().weights.dom() =~= old(self).graph().weights.dom());
            assert(self.graph().positions =~= old(self).graph().positions);
            assert(self.nodes() =~= old(self).nodes());
            assert forall|from: NodeIndex, to: NodeIndex| #[trigger]
                self.graph().has_link(from, to) implies weight_calculation.ensures(
                (self.graph().positions[from.0 as int], self.graph().positions[to.0 as int]),
                self.graph().weights[(from, to)],
            ) by {
                let k = connection_index(after, from, to);
                assert(after[k].start == from && after[k].end == to);
            }
        }
    }

    /// Gets the neighbours of a node specified by a `NodeIndex`, in the order
    /// of the connections that lead to them.
    fn neighbours(&self, node_index: NodeIndex) -> (neighbours: Vec<NodeIndex>)
        requires
            self.wf(),
        ensures
            forall|k: int|
                0 <= k < neighbours@.len() ==> self.graph().has_link(
                    node_index,
                    #[trigger] neighbours@[k],
                ),
            forall|to: NodeIndex|
                self.graph().has_link(node_index, to) ==> neighbours@.contains(to),
            neighbours@ == ends_from(self.links(), node_index),
    {
        let mut neighbours: Vec<NodeIndex> = Vec::new();
        let mut i: usize = 0;
        while i < self.connections.len()
            invariant
                i <= self.connections@.len(),
                neighbours@ == ends_from(self.links().subrange(0, i as int), node_index),
                forall|k: int|
                    0 <= k < neighbours@.len() ==> has_connection(
                        self.connections@,
                        node_index,
                        #[trigger] neighbours@[k],
                    ),
                forall|k: int|
                    0 <= k < i && (#[trigger] self.connections@[k]).start == node_index
                        ==> neighbours@.contains(self.connections@[k].end),
            decreases self.connections.len() - i,
        {
            proof {
                let taken = self.links().subrange(0, i + 1);
                assert(taken.drop_last() =~= self.links().subrange(0, i as int));
                assert(taken.last() == (self.connections@[i as int].start, self.connections@[i as int].end));
            }
            if self.connections[i].start.0 == node_index.0 {
                let ghost before = neighbours@;
                neighbours.push(self.connections[i].end);
                proof {
                    let end = self.connections@[i as int].end;
                    assert(neighbours@[before.len() as int] == end);
                    assert forall|k: int|
                        0 <= k <= i && (#[trigger] self.connections@[k]).start
                            == node_index implies neighbours@.contains(self.connections@[k].end) by {
                        if k < i {
                            let at = choose|at: int|
                                0 <= at < before.len() && before[at] == self.connections@[k].end;
                            assert(neighbours@[at] == before[at]);
                        }
                    }
                    assert forall|k: int| 0 <= k < neighbours@.len() implies has_connection(
                        self.connections@,
                        node_index,
                        #[trigger] neighbours@[k],
                    ) by {
                        if k < before.len() {
                            assert(neighbours@[k] == before[k]);
                        }
                    }
                }
            }
            i += 1;
        }
        proof {
            assert forall|to: NodeIndex|
                self.graph().has_link(node_index, to) implies neighbours@.contains(to) by {
                let k = connection_index(self.connections@, node_index, to);
                assert(self.connections@[k].start == node_index);
            }
            assert(self.links().subrange(0, self.links().len() as int) =~= self.links());
        }
        neighbours
    }

    /// Gets the best route, if it has been calculated.
    pub fn best_route(&self) -> (route: Option<Vec<Vector>>)
        requires
            self.wf(),
        ensures
            match self.route() {
                Some(walk) => route is Some && route->0@ == Seq::new(
                    walk.len(),
                    |i: int| self.graph().positions[walk[i].0 as int],
                ),
                None => route is None,
            },
    {
        match &self.best_route {
            Some(indices) => {
                let mut positions: Vec<Vector> = Vec::with_capacity(indices.len());
                let mut i: usize = 0;
                while i < indices.len()
                    invariant
                        i <= indices@.len(),
                        positions@.len() == i,
                        self.graph().is_walk(indices@),
                        forall|k: int|
                            0 <= k < i ==> #[trigger] positions@[k]
                                == self.nodes@[indices@[k].0 as int].position,
                    decreases indices.len() - i,
                {
                    assert(self.graph().has_node(indices@[i as int]));
                    positions.push(self.nodes[indices[i].0].position);
                    i += 1;
                }
                proof {
                    assert(positions@ =~= Seq::new(
                        indices@.len(),
                        |i: int| self.graph().positions[indices@[i].0 as int],
                    ));
                }
                Some(positions)
            },
            None => None,
        }
    }
}

/// Whether the search has reached `node`.
spec fn reached(nodes: Seq<Node>, node: NodeIndex) -> bool {
    nodes[node.0 as int].g_cost is Some
}

/// The cost of the cheapest way that the search has found to `node`.
spec fn cost_so_far(nodes: Seq<Node>, node: NodeIndex) -> int {
    nodes[node.0 as int].g_cost->0 as int
}

/// Whether `node` remembers a parent among the first `limit` closed nodes,
/// joined to it by a link that accounts for the node's cost.
spec fn came_from(
    nodes: Seq<Node>,
    graph: Graph,
    closed: Seq<NodeIndex>,
    node: NodeIndex,
    limit: int,
) -> bool {
    match nodes[node.0 as int].parent {
        Some(parent) => {
            &&& exists|j: int| 0 <= j < limit && j < closed.len() && #[trigger] closed[j] == parent
            &&& graph.has_link(parent, node)
            &&& cost_so_far(nodes, node) == cost_so_far(nodes, parent) + graph.weight(parent, node)
        },
        None => false,
    }
}

/// The nodes lie where the graph says.
#[verifier::opaque]
spec fn placed(nodes: Seq<Node>, graph: Graph) -> bool {
    &&& graph.wf()
    &&& nodes.len() == graph.positions.len()
    &&& nodes.len() <= usize::MAX
    &&& forall|i: int| 0 <= i < nodes.len() ==> (#[trigger] nodes[i]).position == graph.positions[i]
}

/// The open and closed lists hold nodes of the graph, each at most once in
/// either.
#[verifier::opaque]
spec fn listed(graph: Graph, open: Seq<NodeIndex>, closed: Seq<NodeIndex>) -> bool {
    &&& forall|i: int| 0 <= i < open.len() ==> graph.has_node(#[trigger] open[i])
    &&& forall|i: int| 0 <= i < closed.len() ==> graph.has_node(#[trigger] closed[i])
    &&& open.no_duplicates()
    &&& closed.no_duplicates()
    &&& forall|i: int, j: int|
        0 <= i < open.len() && 0 <= j < closed.len() ==> #[trigger] open[i] != #[trigger] closed[j]
}

/// The nodes with a cost are those on the two lists, and each has an
/// estimate.
#[verifier::opaque]
spec fn marked(
    nodes: Seq<Node>,
    graph: Graph,
    open: Seq<NodeIndex>,
    closed: Seq<NodeIndex>,
) -> bool {
    &&& forall|node: NodeIndex|
        graph.has_node(node) ==> (#[trigger] reached(nodes, node) <==> open.contains(node)
            || closed.contains(node))
    &&& forall|node: NodeIndex|
        graph.has_node(node) && #[trigger] reached(nodes, node) ==> nodes[node.0 as int].h_cost
            is Some
}

/// The start costs nothing, has no parent, and is the first node to be
/// closed.
#[verifier::opaque]
spec fn rooted(
    nodes: Seq<Node>,
    graph: Graph,
    open: Seq<NodeIndex>,
    closed: Seq<NodeIndex>,
    start: NodeIndex,
) -> bool {
    &&& graph.has_node(start)
    &&& nodes[start.0 as int].g_cost == Some(0u128)
    &&& nodes[start.0 as int].parent is None
    &&& closed.len() == 0 ==> open =~= seq![start]
    &&& closed.len() > 0 ==> closed[0] == start
}

/// No cost exceeds what as many links as nodes were closed before can weigh.
#[verifier::opaque]
spec fn bounded(nodes: Seq<Node>, open: Seq<NodeIndex>, closed: Seq<NodeIndex>) -> bool {
    &&& forall|k: int|
        0 <= k < closed.len() ==> cost_so_far(nodes, #[trigger] closed[k]) <= k * u64::MAX
    &&& forall|i: int|
        0 <= i < open.len() ==> cost_so_far(nodes, #[trigger] open[i]) <= closed.len() * u64::MAX
}

/// Every listed node but the start came from a node that was closed before
/// it.
#[verifier::opaque]
spec fn linked(
    nodes: Seq<Node>,
    graph: Graph,
    open: Seq<NodeIndex>,
    closed: Seq<NodeIndex>,
    start: NodeIndex,
) -> bool {
    &&& forall|k: int|
        0 <= k < closed.len() && closed[k] != start ==> came_from(
            nodes,
            graph,
            closed,
            #[trigger] closed[k],
            k,
        )
    &&& forall|i: int|
        0 <= i < open.len() && open[i] != start ==> came_from(
            nodes,
            graph,
            closed,
            #[trigger] open[i],
            closed.len() as int,
        )
}

/// What holds of the open and closed lists throughout a search from `start`.
spec fn searching(
    nodes: Seq<Node>,
    graph: Graph,
    open: Seq<NodeIndex>,
    closed: Seq<NodeIndex>,
    start: NodeIndex,
) -> bool {
    &&& placed(nodes, graph)
    &&& listed(graph, open, closed)
    &&& marked(nodes, graph, open, closed)
    &&& rooted(nodes, graph, open, closed, start)
    &&& bounded(nodes, open, closed)
    &&& linked(nodes, graph, open, closed, start)
}

/// Whether the search has reached every node to which a link leads from one
/// of the first `upto` closed nodes.
#[verifier::opaque]
spec fn expanded(
    nodes: Seq<Node>,
    graph: Graph,
    closed: Seq<NodeIndex>,
    upto: int,
) -> bool {
    forall|k: int, to: NodeIndex|
        0 <= k < upto && k < closed.len() && #[trigger] graph.has_link(closed[k], to) ==> reached(
            nodes,
            to,
        )
}

/// A list of distinct nodes of a graph is no longer than the graph has nodes.
proof fn lemma_distinct_nodes_bounded(list: Seq<NodeIndex>, count: int)
    requires
        list.no_duplicates(),
        count >= 0,
        forall|i: int| 0 <= i < list.len() ==> (#[trigger] list[i]).0 < count,
    ensures
        list.len() <= count,
{
    let numbers = Seq::new(list.len(), |i: int| list[i].0 as int);
    assert forall|i: int, j: int|
        0 <= i < numbers.len() && 0 <= j < numbers.len() && i != j implies numbers[i]
        != numbers[j] by {
        assert(list[i] != list[j]);
    }
    numbers.unique_seq_to_set();
    vstd::set_lib::lemma_int_range(0, count);
    assert forall|n: int| numbers.to_set().contains(n) implies vstd::set_lib::set_int_range(
        0,
        count,
    ).contains(n) by {
        let i = choose|i: int| 0 <= i < numbers.len() && numbers[i] == n;
        assert(list[i].0 < count);
    }
    vstd::set_lib::lemma_len_subset(numbers.to_set(), vstd::set_lib::set_int_range(0, count));
}

/// Moving a node from the open list to the closed list keeps the search in
/// order.
proof fn lemma_close_node(
    nodes: Seq<Node>,
    graph: Graph,
    open: Seq<NodeIndex>,
    closed: Seq<NodeIndex>,
    start: NodeIndex,
    at: int,
)
    requires
        searching(nodes, graph, open, closed, start),
        0 <= at < open.len(),
    ensures
        searching(nodes, graph, open.remove(at), closed.push(open[at]), start),
        closed.len() < nodes.len(),
        expanded(nodes, graph, closed, closed.len() as int) ==> expanded(
            nodes,
            graph,
            closed.push(open[at]),
            closed.len() as int,
        ),
{
    reveal(placed);
    reveal(listed);
    reveal(marked);
    reveal(rooted);
    reveal(bounded);
    reveal(linked);
    reveal(expanded);
    let current = open[at];
    let open2 = open.remove(at);
    let closed2 = closed.push(current);
    assert forall|i: int| 0 <= i < open2.len() implies #[trigger] open2[i] == open[if i < at {
        i
    } else {
        i + 1
    }] by {}
    assert forall|i: int, j: int|
        0 <= i < closed2.len() && 0 <= j < closed2.len() && i != j implies closed2[i]
        != closed2[j] by {
        if i == closed.len() {
            assert(open[at] != closed[j]);
        } else if j == closed.len() {
            assert(open[at] != closed[i]);
        }
    }
    assert forall|i: int, j: int|
        0 <= i < open2.len() && 0 <= j < open2.len() && i != j implies open2[i] != open2[j] by {}
    assert forall|i: int, j: int| 0 <= i < open2.len() && 0 <= j < closed2.len() implies (
    #[trigger] open2[i]) != (#[trigger] closed2[j]) by {
        let from = if i < at {
            i
        } else {
            i + 1
        };
        assert(open2[i] == open[from]);
        if j < closed.len() {
            assert(open[from] != closed[j]);
        }
    }
    assert forall|node: NodeIndex| graph.has_node(node) implies (#[trigger] reached(nodes, node)
        <==> open2.contains(node) || closed2.contains(node)) by {
        if open.contains(node) {
            let m = choose|m: int| 0 <= m < open.len() && open[m] == node;
            if m == at {
                assert(closed2[closed.len() as int] == node);
            } else if m < at {
                assert(open2[m] == node);
            } else {
                assert(open2[m - 1] == node);
            }
        }
        if closed.contains(node) {
            let m = choose|m: int| 0 <= m < closed.len() && closed[m] == node;
            assert(closed2[m] == node);
        }
        if open2.contains(node) {
            let m = choose|m: int| 0 <= m < open2.len() && open2[m] == node;
            assert(open[if m < at {
                m
            } else {
                m + 1
            }] == node);
        }
        if closed2.contains(node) {
            let m = choose|m: int| 0 <= m < closed2.len() && closed2[m] == node;
            if m < closed.len() {
                assert(closed[m] == node);
            } else {
                assert(open[at] == node);
            }
        }
    }
    if closed.len() == 0 {
        assert(open[0] == start);
    }
    assert forall|k: int| 0 <= k < closed2.len() && closed2[k] != start implies came_from(
        nodes,
        graph,
        closed2,
        #[trigger] closed2[k],
        k,
    ) by {
        if k < closed.len() {
            assert(came_from(nodes, graph, closed, closed[k], k));
            let parent = nodes[closed[k].0 as int].parent->0;
            let j = choose|j: int| 0 <= j < k && j < closed.len() && #[trigger] closed[j] == parent;
            assert(closed2[j] == parent);
        } else {
            assert(came_from(nodes, graph, closed, open[at], closed.len() as int));
            let parent = nodes[current.0 as int].parent->0;
            let j = choose|j: int|
                0 <= j < closed.len() && j < closed.len() && #[trigger] closed[j] == parent;
            assert(closed2[j] == parent);
        }
    }
    assert forall|i: int| 0 <= i < open2.len() && open2[i] != start implies came_from(
        nodes,
        graph,
        closed2,
        #[trigger] open2[i],
        closed2.len() as int,
    ) by {
        let from = if i < at {
            i
        } else {
            i + 1
        };
        assert(came_from(nodes, graph, closed, open[from], closed.len() as int));
        let parent = nodes[open[from].0 as int].parent->0;
        let j = choose|j: int|
            0 <= j < closed.len() && j < closed.len() && #[trigger] closed[j] == parent;
        assert(closed2[j] == parent);
    }
    assert forall|i: int| 0 <= i < open2.len() implies cost_so_far(nodes, #[trigger] open2[i])
        <= closed2.len() * u64::MAX by {
        let from = if i < at {
            i
        } else {
            i + 1
        };
        assert(cost_so_far(nodes, open[from]) <= closed.len() * u64::MAX);
    }
    assert forall|k: int| 0 <= k < closed2.len() implies cost_so_far(nodes, #[trigger] closed2[k])
        <= k * u64::MAX by {
        if k < closed.len() {
            assert(cost_so_far(nodes, closed[k]) <= k * u64::MAX);
        } else {
            assert(cost_so_far(nodes, open[at]) <= closed.len() * u64::MAX);
        }
    }
    assert forall|i: int| 0 <= i < closed2.len() implies graph.has_node(#[trigger] closed2[i]) by {
        if i < closed.len() {
            assert(graph.has_node(closed[i]));
        } else {
            assert(graph.has_node(open[at]));
        }
    }
    assert forall|i: int| 0 <= i < open2.len() implies graph.has_node(#[trigger] open2[i]) by {
        assert(graph.has_node(open[if i < at {
            i
        } else {
            i + 1
        }]));
    }
    lemma_distinct_nodes_bounded(closed2, nodes.len() as int);
    if expanded(nodes, graph, closed, closed.len() as int) {
        assert forall|k: int, to: NodeIndex|
            0 <= k < closed.len() && k < closed2.len() && #[trigger] graph.has_link(
                closed2[k],
                to,
            ) implies reached(nodes, to) by {
            assert(graph.has_link(closed[k], to));
        }
    }
}

/// Once the open list is empty, the closed list holds every node to which a
/// walk leads from the start.
proof fn lemma_exhausted(
    nodes: Seq<Node>,
    graph: Graph,
    closed: Seq<NodeIndex>,
    start: NodeIndex,
    walk: Seq<NodeIndex>,
)
    requires
        searching(nodes, graph, Seq::empty(), closed, start),
        expanded(nodes, graph, closed, closed.len() as int),
        graph.is_walk(walk),
        walk[0] == start,
    ensures
        closed.contains(walk[walk.len() - 1]),
    decreases walk.len(),
{
    reveal(rooted);
    reveal(marked);
    reveal(expanded);
    let open = Seq::<NodeIndex>::empty();
    if closed.len() == 0 {
        assert(open.len() == seq![start].len());
    }
    if walk.len() == 1 {
        assert(closed[0] == start);
    } else {
        let last = walk.len() - 1;
        let before = walk.subrange(0, last);
        crate::graph::lemma_walk_split(graph, walk, last - 1);
        lemma_exhausted(nodes, graph, closed, start, before);
        let k = choose|k: int| 0 <= k < closed.len() && closed[k] == before[last - 1];
        assert(graph.has_link(walk[last - 1], walk[last]));
        assert(graph.has_link(closed[k], walk[last]));
        assert(reached(nodes, walk[last]));
        assert(graph.has_node(walk[last]));
        assert(!open.contains(walk[last]));
    }
}

/// The open list once `neighbour` has been given a way: as before where it
/// holds the node already, and with the node at its end where not.
spec fn with_neighbour(open: Seq<NodeIndex>, neighbour: NodeIndex) -> Seq<NodeIndex> {
    if open.contains(neighbour) {
        open
    } else {
        open.push(neighbour)
    }
}

/// Whether `updated` is the node `neighbour` with a way through the node
/// that was closed last.
spec fn relaxed(
    nodes: Seq<Node>,
    graph: Graph,
    closed: Seq<NodeIndex>,
    neighbour: NodeIndex,
    updated: Node,
) -> bool {
    &&& closed.len() > 0
    &&& graph.has_node(neighbour)
    &&& graph.has_node(closed[closed.len() - 1])
    &&& graph.has_link(closed[closed.len() - 1], neighbour)
    &&& !closed.contains(neighbour)
    &&& updated.position == nodes[neighbour.0 as int].position
    &&& updated.parent == Some(closed[closed.len() - 1])
    &&& updated.h_cost is Some
    &&& updated.g_cost == Some(
        (cost_so_far(nodes, closed[closed.len() - 1]) + graph.weight(
            closed[closed.len() - 1],
            neighbour,
        )) as u128,
    )
    &&& cost_so_far(nodes, closed[closed.len() - 1]) + graph.weight(
        closed[closed.len() - 1],
        neighbour,
    ) <= closed.len() * u64::MAX
    &&& closed.len() * u64::MAX <= u128::MAX
}

proof fn lemma_relax_listed(
    graph: Graph,
    open: Seq<NodeIndex>,
    closed: Seq<NodeIndex>,
    neighbour: NodeIndex,
)
    requires
        listed(graph, open, closed),
        graph.has_node(neighbour),
        !closed.contains(neighbour),
    ensures
        listed(graph, with_neighbour(open, neighbour), closed),
{
    reveal(listed);
    let open2 = with_neighbour(open, neighbour);
    if !open.contains(neighbour) {
        assert forall|i: int| 0 <= i < open2.len() implies graph.has_node(#[trigger] open2[i]) by {
            if i < open.len() {
                assert(graph.has_node(open[i]));
            }
        }
        assert forall|i: int, j: int|
            0 <= i < open2.len() && 0 <= j < open2.len() && i != j implies open2[i]
            != open2[j] by {
            if i < open.len() && j < open.len() {
            } else if i < open.len() {
                assert(open[i] != neighbour);
            } else {
                assert(open[j] != neighbour);
            }
        }
        assert forall|i: int, j: int| 0 <= i < open2.len() && 0 <= j < closed.len() implies (
        #[trigger] open2[i]) != (#[trigger] closed[j]) by {
            if i < open.len() {
                assert(open[i] != closed[j]);
            }
        }
    }
}

proof fn lemma_relax_marked(
    nodes: Seq<Node>,
    graph: Graph,
    open: Seq<NodeIndex>,
    closed: Seq<NodeIndex>,
    neighbour: NodeIndex,
    updated: Node,
)
    requires
        marked(nodes, graph, open, closed),
        graph.has_node(neighbour),
        nodes.len() == graph.positions.len(),
        !closed.contains(neighbour),
        updated.h_cost is Some,
        updated.g_cost is Some,
    ensures
        marked(
            nodes.update(neighbour.0 as int, updated),
            graph,
            with_neighbour(open, neighbour),
            closed,
        ),
        reached(nodes.update(neighbour.0 as int, updated), neighbour),
        forall|node: NodeIndex|
            reached(nodes, node) && 0 <= node.0 < nodes.len() ==> reached(
                nodes.update(neighbour.0 as int, updated),
                node,
            ),
{
    reveal(marked);
    let nodes2 = nodes.update(neighbour.0 as int, updated);
    let open2 = with_neighbour(open, neighbour);
    assert forall|node: NodeIndex| graph.has_node(node) implies (#[trigger] reached(nodes2, node)
        <==> open2.contains(node) || closed.contains(node)) by {
        if node == neighbour {
            if open.contains(neighbour) {
            } else {
                assert(open2[open.len() as int] == neighbour);
            }
        } else {
            assert(node.0 != neighbour.0);
            assert(reached(nodes2, node) == reached(nodes, node));
            if open.contains(node) {
                let m = choose|m: int| 0 <= m < open.len() && open[m] == node;
                assert(open2[m] == node);
            }
            if open2.contains(node) {
                let m = choose|m: int| 0 <= m < open2.len() && open2[m] == node;
                assert(open[m] == node);
            }
        }
    }
    assert forall|node: NodeIndex| graph.has_node(node) && #[trigger] reached(
        nodes2,
        node,
    ) implies nodes2[node.0 as int].h_cost is Some by {
        if node != neighbour {
            assert(node.0 != neighbour.0);
            assert(reached(nodes, node));
        }
    }
}

proof fn lemma_relax_bounded(
    nodes: Seq<Node>,
    graph: Graph,
    open: Seq<NodeIndex>,
    closed: Seq<NodeIndex>,
    neighbour: NodeIndex,
    updated: Node,
)
    requires
        bounded(nodes, open, closed),
        listed(graph, open, closed),
        nodes.len() == graph.positions.len(),
        relaxed(nodes, graph, closed, neighbour, updated),
    ensures
        bounded(
            nodes.update(neighbour.0 as int, updated),
            with_neighbour(open, neighbour),
            closed,
        ),
{
    reveal(bounded);
    reveal(listed);
    let nodes2 = nodes.update(neighbour.0 as int, updated);
    let open2 = with_neighbour(open, neighbour);
    assert forall|k: int| 0 <= k < closed.len() implies cost_so_far(nodes2, #[trigger] closed[k])
        <= k * u64::MAX by {
        assert(closed[k] != neighbour);
        assert(graph.has_node(closed[k]));
        assert(cost_so_far(nodes, closed[k]) <= k * u64::MAX);
    }
    assert forall|i: int| 0 <= i < open2.len() implies cost_so_far(nodes2, #[trigger] open2[i])
        <= closed.len() * u64::MAX by {
        if open2[i] != neighbour {
            assert(open[i] == open2[i]);
            assert(graph.has_node(open[i]));
            assert(cost_so_far(nodes, open[i]) <= closed.len() * u64::MAX);
        }
    }
}

proof fn lemma_relax_linked(
    nodes: Seq<Node>,
    graph: Graph,
    open: Seq<NodeIndex>,
    closed: Seq<NodeIndex>,
    start: NodeIndex,
    neighbour: NodeIndex,
    updated: Node,
)
    requires
        linked(nodes, graph, open, closed, start),
        listed(graph, open, closed),
        nodes.len() == graph.positions.len(),
        relaxed(nodes, graph, closed, neighbour, updated),
    ensures
        linked(
            nodes.update(neighbour.0 as int, updated),
            graph,
            with_neighbour(open, neighbour),
            closed,
            start,
        ),
{
    reveal(linked);
    reveal(listed);
    let current = closed[closed.len() - 1];
    let nodes2 = nodes.update(neighbour.0 as int, updated);
    let open2 = with_neighbour(open, neighbour);
    assert forall|k: int| 0 <= k < closed.len() implies nodes2[(#[trigger] closed[k]).0 as int]
        == nodes[closed[k].0 as int] by {
        assert(graph.has_node(closed[k]));
        assert(closed[k] != neighbour);
    }
    assert forall|k: int| 0 <= k < closed.len() && closed[k] != start implies came_from(
        nodes2,
        graph,
        closed,
        #[trigger] closed[k],
        k,
    ) by {
        assert(came_from(nodes, graph, closed, closed[k], k));
        let parent = nodes[closed[k].0 as int].parent->0;
        let j = choose|j: int| 0 <= j < k && j < closed.len() && #[trigger] closed[j] == parent;
        assert(nodes2[closed[j].0 as int] == nodes[closed[j].0 as int]);
    }
    assert forall|i: int| 0 <= i < open2.len() && open2[i] != start implies came_from(
        nodes2,
        graph,
        closed,
        #[trigger] open2[i],
        closed.len() as int,
    ) by {
        if open2[i] == neighbour {
            assert(closed[closed.len() - 1] == current);
            assert(current != neighbour);
            assert(nodes2[current.0 as int] == nodes[current.0 as int]);
            assert(nodes2[neighbour.0 as int] == updated);
            assert(cost_so_far(nodes2, current) == cost_so_far(nodes, current));
            assert(cost_so_far(nodes2, neighbour) == cost_so_far(nodes, current) + graph.weight(
                current,
                neighbour,
            ));
        } else {
            assert(open[i] == open2[i]);
            assert(graph.has_node(open[i]));
            assert(open[i].0 != neighbour.0);
            assert(nodes2[open[i].0 as int] == nodes[open[i].0 as int]);
            assert(came_from(nodes, graph, closed, open[i], closed.len() as int));
            let parent = nodes[open[i].0 as int].parent->0;
            let j = choose|j: int|
                0 <= j < closed.len() && j < closed.len() && #[trigger] closed[j] == parent;
            assert(nodes2[closed[j].0 as int] == nodes[closed[j].0 as int]);
        }
    }
}

/// Giving a node that is not closed a way through the node that was closed
/// last keeps the search in order.
proof fn lemma_relax(
    nodes: Seq<Node>,
    graph: Graph,
    open: Seq<NodeIndex>,
    closed: Seq<NodeIndex>,
    start: NodeIndex,
    neighbour: NodeIndex,
    updated: Node,
)
    requires
        searching(nodes, graph, open, closed, start),
        relaxed(nodes, graph, closed, neighbour, updated),
    ensures
        searching(
            nodes.update(neighbour.0 as int, updated),
            graph,
            with_neighbour(open, neighbour),
            closed,
            start,
        ),
        reached(nodes.update(neighbour.0 as int, updated), neighbour),
        forall|node: NodeIndex|
            reached(nodes, node) && 0 <= node.0 < nodes.len() ==> reached(
                nodes.update(neighbour.0 as int, updated),
                node,
            ),
        forall|upto: int|
            expanded(nodes, graph, closed, upto) ==> expanded(
                nodes.update(neighbour.0 as int, updated),
                graph,
                closed,
                upto,
            ),
{
    let nodes2 = nodes.update(neighbour.0 as int, updated);
    assert(nodes.len() == graph.positions.len()) by {
        reveal(placed);
    }
    lemma_relax_listed(graph, open, closed, neighbour);
    lemma_relax_marked(nodes, graph, open, closed, neighbour, updated);
    lemma_relax_bounded(nodes, graph, open, closed, neighbour, updated);
    lemma_relax_linked(nodes, graph, open, closed, start, neighbour, updated);
    assert(placed(nodes2, graph)) by {
        reveal(placed);
    }
    assert(rooted(nodes2, graph, with_neighbour(open, neighbour), closed, start)) by {
        reveal(rooted);
        assert(closed[0] == start);
        assert(neighbour != start);
    }
    assert forall|upto: int| expanded(nodes, graph, closed, upto) implies expanded(
        nodes2,
        graph,
        closed,
        upto,
    ) by {
        reveal(expanded);
        reveal(placed);
        assert forall|k: int, to: NodeIndex|
            0 <= k < upto && k < closed.len() && #[trigger] graph.has_link(
                closed[k],
                to,
            ) implies reached(nodes2, to) by {
            assert(reached(nodes, to));
            assert(graph.has_node(to));
        }
    }
}

/// The node before each node on the way that the search has found to it.
spec fn parents_of(nodes: Seq<Node>) -> Seq<Option<NodeIndex>> {
    Seq::new(nodes.len(), |i: int| nodes[i].parent)
}

/// The cost of the way that the search has found to each node.
spec fn costs_of(nodes: Seq<Node>) -> Seq<Option<int>> {
    Seq::new(
        nodes.len(),
        |i: int|
            match nodes[i].g_cost {
                Some(cost) => Some(cost as int),
                None => None,
            },
    )
}

/// What the search knows, from its nodes and lists.
spec fn frontier_of(nodes: Seq<Node>, open: Seq<NodeIndex>, closed: Seq<NodeIndex>) -> Frontier {
    Frontier { costs: costs_of(nodes), parents: parents_of(nodes), open, closed }
}

/// The estimated cost of the cheapest way from the start to the target
/// through `node`.
spec fn estimated_total(nodes: Seq<Node>, node: NodeIndex) -> int {
    cost_so_far(nodes, node) + nodes[node.0 as int].h_cost->0
}

/// Whether every estimate that a node remembers is the graph's estimate
/// toward `target`.
spec fn estimates_agree(nodes: Seq<Node>, graph: Graph, target: NodeIndex) -> bool {
    forall|node: NodeIndex|
        graph.has_node(node) && (#[trigger] nodes[node.0 as int]).h_cost is Some
            ==> nodes[node.0 as int].h_cost->0 == graph.heuristic(node, target)
}

/// The open node that the search closes is the first with the least
/// estimated total.
proof fn lemma_best_is_first_least(
    nodes: Seq<Node>,
    graph: Graph,
    open: Seq<NodeIndex>,
    closed: Seq<NodeIndex>,
    end: NodeIndex,
    best: int,
)
    requires
        0 <= best < open.len(),
        estimates_agree(nodes, graph, end),
        forall|i: int|
            0 <= i < open.len() ==> {
                &&& graph.has_node(#[trigger] open[i])
                &&& open[i].0 < nodes.len()
                &&& nodes[open[i].0 as int].g_cost is Some
                &&& nodes[open[i].0 as int].h_cost is Some
            },
        forall|i: int|
            0 <= i < open.len() ==> estimated_total(nodes, open[best]) <= estimated_total(
                nodes,
                #[trigger] open[i],
            ),
        forall|i: int|
            0 <= i < best ==> estimated_total(nodes, open[best]) < estimated_total(
                nodes,
                #[trigger] open[i],
            ),
    ensures
        first_least(estimated_totals(graph, end, frontier_of(nodes, open, closed))) == best,
{
    let totals = estimated_totals(graph, end, frontier_of(nodes, open, closed));
    assert forall|i: int| 0 <= i < open.len() implies #[trigger] totals[i] == estimated_total(
        nodes,
        open[i],
    ) by {
        assert(graph.has_node(open[i]));
        assert(nodes[open[i].0 as int].h_cost->0 == graph.heuristic(open[i], end));
    }
    assert forall|i: int| 0 <= i < totals.len() implies totals[best] <= #[trigger] totals[i] by {
        assert(estimated_total(nodes, open[best]) <= estimated_total(nodes, open[i]));
    }
    assert forall|i: int| 0 <= i < best implies totals[best] < #[trigger] totals[i] by {
        assert(estimated_total(nodes, open[best]) < estimated_total(nodes, open[i]));
    }
    lemma_first_least(totals, best);
}

/// Giving a neighbour a way through the node that was closed last is what
/// looking along the link to it does.
proof fn lemma_frontier_relaxed(
    nodes: Seq<Node>,
    graph: Graph,
    open: Seq<NodeIndex>,
    closed: Seq<NodeIndex>,
    neighbour: NodeIndex,
    updated: Node,
)
    requires
        relaxed(nodes, graph, closed, neighbour, updated),
        neighbour.0 < nodes.len(),
        closed[closed.len() - 1].0 < nodes.len(),
        nodes[closed[closed.len() - 1].0 as int].g_cost is Some,
        nodes[neighbour.0 as int].g_cost is None || nodes[neighbour.0 as int].g_cost->0
            > updated.g_cost->0 || !open.contains(neighbour),
    ensures
        frontier_of(
            nodes.update(neighbour.0 as int, updated),
            with_neighbour(open, neighbour),
            closed,
        ) == relax_link(
            graph,
            frontier_of(nodes, open, closed),
            closed[closed.len() - 1],
            neighbour,
        ),
{
    let current = closed[closed.len() - 1];
    let known = frontier_of(nodes, open, closed);
    let after = nodes.update(neighbour.0 as int, updated);
    let cost = known.costs[current.0 as int]->0 + graph.weight(current, neighbour);
    assert(cost == cost_so_far(nodes, current) + graph.weight(current, neighbour));
    assert(updated.g_cost == Some(cost as u128));
    assert(costs_of(after) =~= known.costs.update(neighbour.0 as int, Some(cost)));
    assert(parents_of(after) =~= known.parents.update(neighbour.0 as int, Some(current)));
}

impl Pathfinder {
    /// Forgets the costs and parents that an earlier search has left in the
    /// nodes. The estimates stay.
    fn forget_costs(&mut self)
        ensures
            final(self).connections == old(self).connections,
            final(self).best_route == old(self).best_route,
            final(self).nodes@.len() == old(self).nodes@.len(),
            forall|i: int|
                0 <= i < final(self).nodes@.len() ==> {
                    &&& (#[trigger] final(self).nodes@[i]).position == old(self).nodes@[i].position
                    &&& final(self).nodes@[i].h_cost == old(self).nodes@[i].h_cost
                    &&& final(self).nodes@[i].g_cost is None
                    &&& final(self).nodes@[i].parent is None
                },
    {
        let count = self.nodes.len();
        let mut i: usize = 0;
        while i < count
            invariant
                i <= count,
                count == self.nodes@.len(),
                self.nodes@.len() == old(self).nodes@.len(),
                self.connections == old(self).connections,
                self.best_route == old(self).best_route,
                forall|k: int|
                    0 <= k < count ==> (#[trigger] self.nodes@[k]).position == old(
                        self,
                    ).nodes@[k].position && self.nodes@[k].h_cost == old(self).nodes@[k].h_cost,
                forall|k: int|
                    0 <= k < i ==> (#[trigger] self.nodes@[k]).g_cost is None
                        && self.nodes@[k].parent is None,
            decreases count - i,
        {
            let mut node = self.nodes[i];
            node.g_cost = None;
            node.parent = None;
            self.nodes[i] = node;
            i += 1;
        }
    }

    /// Finds the first node of the open list with the lowest estimated total
    /// cost.
    fn lowest_f_cost(&self, open: &Vec<NodeIndex>) -> (best: usize)
        requires
            open@.len() > 0,
            forall|i: int|
                0 <= i < open@.len() ==> {
                    &&& (#[trigger] open@[i]).0 < self.nodes@.len()
                    &&& self.nodes@[open@[i].0 as int].g_cost is Some
                    &&& self.nodes@[open@[i].0 as int].h_cost is Some
                    &&& self.nodes@[open@[i].0 as int].g_cost->0 + u64::MAX <= u128::MAX
                },
        ensures
            best < open@.len(),
            forall|i: int|
                0 <= i < open@.len() ==> estimated_total(self.nodes@, open@[best as int])
                    <= estimated_total(self.nodes@, #[trigger] open@[i]),
            forall|i: int|
                0 <= i < best ==> estimated_total(self.nodes@, open@[best as int])
                    < estimated_total(self.nodes@, #[trigger] open@[i]),
    {
        let mut best: usize = 0;
        assert(self.nodes@[open@[0].0 as int].g_cost is Some);
        let mut lowest: u128 = match self.nodes[open[0].0].f_cost() {
            Some(f_cost) => f_cost,
            None => 0,
        };
        let mut i: usize = 1;
        while i < open.len()
            invariant
                1 <= i <= open@.len(),
                best < i,
                lowest == estimated_total(self.nodes@, open@[best as int]),
                forall|k: int|
                    0 <= k < open@.len() ==> {
                        &&& (#[trigger] open@[k]).0 < self.nodes@.len()
                        &&& self.nodes@[open@[k].0 as int].g_cost is Some
                        &&& self.nodes@[open@[k].0 as int].h_cost is Some
                        &&& self.nodes@[open@[k].0 as int].g_cost->0 + u64::MAX <= u128::MAX
                    },
                forall|k: int|
                    0 <= k < i ==> lowest <= estimated_total(self.nodes@, #[trigger] open@[k]),
                forall|k: int|
                    0 <= k < best ==> lowest < estimated_total(self.nodes@, #[trigger] open@[k]),
            decreases open@.len() - i,
        {
            assert(self.nodes@[open@[i as int].0 as int].g_cost is Some);
            let f_cost: u128 = match self.nodes[open[i].0].f_cost() {
                Some(f_cost) => f_cost,
                None => 0,
            };
            if f_cost < lowest {
                best = i;
                lowest = f_cost;
            }
            i += 1;
        }
        best
    }

    /// Walks the parents back from `end` to the start, and returns the nodes
    /// that it passed in the order from the start to `end`.
    fn trace_route(
        &self,
        start: NodeIndex,
        end: NodeIndex,
        Ghost(graph): Ghost<Graph>,
        Ghost(open): Ghost<Seq<NodeIndex>>,
        Ghost(closed): Ghost<Seq<NodeIndex>>,
    ) -> (route: Vec<NodeIndex>)
        requires
            searching(self.nodes@, graph, open, closed, start),
            closed.contains(end),
        ensures
            graph.is_route(start, end, route@),
            graph.cost(route@) == cost_so_far(self.nodes@, end),
            forall|i: int| 0 <= i < route@.len() ==> closed.contains(#[trigger] route@[i]),
            route@.no_duplicates(),
            route@ == way_back(parents_of(self.nodes@), end, self.nodes@.len() as nat),
    {
        let mut route: Vec<NodeIndex> = Vec::new();
        route.push(end);
        let mut current = end;
        let ghost mut rank: int = choose|k: int| 0 <= k < closed.len() && closed[k] == end;
        let ghost parents = parents_of(self.nodes@);
        let ghost count = self.nodes@.len() as nat;
        proof {
            reveal(listed);
            reveal(placed);
            assert(graph.has_node(closed[rank]));
            assert(graph.cost(route@) == 0);
            lemma_distinct_nodes_bounded(closed, self.nodes@.len() as int);
            assert(route@.subrange(1, 1) =~= Seq::<NodeIndex>::empty());
            assert(way_back(parents, end, count) =~= way_back(parents, end, count)
                + route@.subrange(1, 1));
        }
        let mut parent = self.nodes[current.0].parent;
        while parent.is_some()
            invariant
                searching(self.nodes@, graph, open, closed, start),
                0 <= rank < closed.len(),
                closed[rank] == current,
                graph.has_node(current),
                current.0 < self.nodes@.len(),
                parent == self.nodes@[current.0 as int].parent,
                graph.is_route(current, end, route@),
                graph.cost(route@) + cost_so_far(self.nodes@, current) == cost_so_far(
                    self.nodes@,
                    end,
                ),
                forall|i: int| 0 <= i < route@.len() ==> closed.contains(#[trigger] route@[i]),
                route@.len() > 0,
                route@[0] == current,
                forall|i: int|
                    0 < i < route@.len() ==> exists|k: int|
                        rank < k < closed.len() && closed[k] == #[trigger] route@[i],
                route@.no_duplicates(),
                parents == parents_of(self.nodes@),
                count == self.nodes@.len(),
                closed.len() <= count,
                route@.len() + rank <= closed.len(),
                way_back(parents, end, count) == way_back(
                    parents,
                    current,
                    (count - (route@.len() - 1)) as nat,
                ) + route@.subrange(1, route@.len() as int),
            decreases rank,
        {
            let previous = parent.unwrap();
            let ghost walked = route@;
            let ghost before = rank;
            proof {
                reveal(linked);
                reveal(rooted);
                reveal(listed);
                reveal(placed);
                assert(current != start);
                assert(came_from(self.nodes@, graph, closed, closed[rank], rank));
                let j = choose|j: int|
                    0 <= j < rank && j < closed.len() && #[trigger] closed[j] == previous;
                rank = j;
                assert(graph.has_node(closed[j]));
                crate::graph::lemma_cost_prepend(graph, previous, walked);
                assert(parents[current.0 as int] == Some(previous));
            }
            route.insert(0, previous);
            proof {
                assert(route@ =~= seq![previous] + walked);
                let left = (count - (walked.len() - 1)) as nat;
                assert(way_back(parents, current, left) == way_back(
                    parents,
                    previous,
                    (left - 1) as nat,
                ).push(current));
                assert(route@.subrange(1, route@.len() as int) =~= walked);
                assert(walked =~= seq![current] + walked.subrange(1, walked.len() as int));
                assert(way_back(parents, end, count) =~= way_back(
                    parents,
                    previous,
                    (count - (route@.len() - 1)) as nat,
                ) + route@.subrange(1, route@.len() as int));
                assert forall|i: int| 0 <= i < route@.len() implies graph.has_node(
                    #[trigger] route@[i],
                ) by {
                    if i > 0 {
                        assert(graph.has_node(walked[i - 1]));
                    }
                }
                assert forall|i: int| 0 <= i < route@.len() - 1 implies graph.has_link(
                    #[trigger] route@[i],
                    route@[i + 1],
                ) by {
                    if i > 0 {
                        assert(graph.has_link(walked[i - 1], walked[i]));
                    }
                }
                assert forall|i: int| 0 <= i < route@.len() implies closed.contains(
                    #[trigger] route@[i],
                ) by {
                    if i > 0 {
                        assert(closed.contains(walked[i - 1]));
                    }
                }
                // every node that was passed before was closed later
                assert forall|i: int| 0 < i < route@.len() implies exists|k: int|
                    rank < k < closed.len() && closed[k] == #[trigger] route@[i] by {
                    if i == 1 {
                        assert(closed[before] == route@[i]);
                    } else {
                        assert(route@[i] == walked[i - 1]);
                        let k = choose|k: int|
                            before < k < closed.len() && closed[k] == walked[i - 1];
                        assert(closed[k] == route@[i]);
                    }
                }
                assert forall|i: int, j: int|
                    0 <= i < route@.len() && 0 <= j < route@.len() && i != j implies route@[i]
                    != route@[j] by {
                    if i > 0 && j > 0 {
                        assert(walked[i - 1] != walked[j - 1]);
                    } else {
                        let other = if i == 0 {
                            j
                        } else {
                            i
                        };
                        let k = choose|k: int|
                            rank < k < closed.len() && closed[k] == route@[other];
                        assert(closed[rank] != closed[k]);
                    }
                }
            }
            current = previous;
            parent = self.nodes[current.0].parent;
        }
        proof {
            reveal(linked);
            reveal(rooted);
            if current != start {
                assert(came_from(self.nodes@, graph, closed, closed[rank], rank));
            }
            assert(parents[current.0 as int] is None);
            assert(way_back(parents, current, (count - (route@.len() - 1)) as nat) =~= seq![
                current,
            ]);
            assert(route@ =~= seq![current] + route@.subrange(1, route@.len() as int));
        }
        route
    }
}

/// Whether no walk from the start to a closed node costs less than the way
/// that the search has found, and no link from one of the first `upto` closed
/// nodes to an open node would make that node's way cheaper.
#[verifier::opaque]
spec fn settled(
    nodes: Seq<Node>,
    graph: Graph,
    open: Seq<NodeIndex>,
    closed: Seq<NodeIndex>,
    start: NodeIndex,
    upto: int,
) -> bool {
    &&& forall|k: int, walk: Seq<NodeIndex>|
        0 <= k < closed.len() && #[trigger] graph.is_route(start, closed[k], walk) ==> cost_so_far(
            nodes,
            closed[k],
        ) <= graph.cost(walk)
    &&& forall|k: int, i: int|
        0 <= k < upto && k < closed.len() && 0 <= i < open.len() && #[trigger] graph.has_link(
            closed[k],
            open[i],
        ) ==> cost_so_far(nodes, open[i]) <= cost_so_far(nodes, closed[k]) + graph.weight(
            closed[k],
            open[i],
        )
}

/// A walk that begins in a list and ends outside it leaves the list at some
/// step.
proof fn lemma_first_exit(closed: Seq<NodeIndex>, walk: Seq<NodeIndex>, from: int) -> (at: int)
    requires
        0 <= from < walk.len(),
        closed.contains(walk[from]),
        !closed.contains(walk[walk.len() - 1]),
    ensures
        from < at < walk.len(),
        closed.contains(walk[at - 1]),
        !closed.contains(walk[at]),
    decreases walk.len() - from,
{
    if closed.contains(walk[from + 1]) {
        lemma_first_exit(closed, walk, from + 1)
    } else {
        from + 1
    }
}

/// Where the estimates are consistent, the open node with the lowest
/// estimated total cost has been given the cheapest way there is.
proof fn lemma_lowest_is_settled(
    nodes: Seq<Node>,
    graph: Graph,
    open: Seq<NodeIndex>,
    closed: Seq<NodeIndex>,
    start: NodeIndex,
    end: NodeIndex,
    best: int,
    walk: Seq<NodeIndex>,
)
    requires
        searching(nodes, graph, open, closed, start),
        expanded(nodes, graph, closed, closed.len() as int),
        settled(nodes, graph, open, closed, start, closed.len() as int),
        estimates_agree(nodes, graph, end),
        graph.consistent_toward(end),
        0 <= best < open.len(),
        forall|i: int|
            0 <= i < open.len() ==> estimated_total(nodes, open[best]) <= estimated_total(
                nodes,
                #[trigger] open[i],
            ),
        graph.is_route(start, open[best], walk),
    ensures
        cost_so_far(nodes, open[best]) <= graph.cost(walk),
{
    reveal(placed);
    reveal(listed);
    reveal(marked);
    reveal(rooted);
    let lowest = open[best];
    if closed.len() == 0 {
        assert(open[0] == start);
        crate::graph::lemma_cost_nonnegative(graph, walk);
    } else {
        assert(closed[0] == start);
        assert(!closed.contains(lowest)) by {
            if closed.contains(lowest) {
                let j = choose|j: int| 0 <= j < closed.len() && closed[j] == lowest;
                assert(open[best] != closed[j]);
            }
        }
        let at = lemma_first_exit(closed, walk, 0);
        let inside = walk[at - 1];
        let outside = walk[at];
        let k = choose|k: int| 0 <= k < closed.len() && closed[k] == inside;
        assert(graph.has_link(walk[at - 1], walk[at]));
        assert(graph.has_node(walk[at]));
        assert(reached(nodes, outside)) by {
            reveal(expanded);
            assert(graph.has_link(closed[k], outside));
        }
        assert(open.contains(outside));
        let i = choose|i: int| 0 <= i < open.len() && open[i] == outside;
        let head = walk.subrange(0, at);
        let through = walk.subrange(0, at + 1);
        let tail = walk.subrange(at, walk.len() as int);
        crate::graph::lemma_walk_split(graph, walk, at - 1);
        crate::graph::lemma_walk_split(graph, walk, at);
        crate::graph::lemma_cost_split(graph, walk, at);
        crate::graph::lemma_cost_split(graph, through, at - 1);
        assert(through.subrange(0, at) =~= head);
        let step = through.subrange(at - 1, at + 1);
        assert(step.len() == 2 && step[0] == inside && step[1] == outside);
        assert(graph.cost(step.subrange(1, 2)) == 0);
        assert(graph.cost(step) == graph.weight(inside, outside));
        assert(graph.cost(walk) == graph.cost(head) + graph.weight(inside, outside) + graph.cost(
            tail,
        ));
        assert(cost_so_far(nodes, inside) <= graph.cost(head)) by {
            reveal(settled);
            assert(graph.is_route(start, closed[k], head));
        }
        assert(cost_so_far(nodes, outside) <= cost_so_far(nodes, inside) + graph.weight(
            inside,
            outside,
        )) by {
            reveal(settled);
            assert(graph.has_link(closed[k], open[i]));
        }
        crate::graph::lemma_consistent_along_walk(graph, end, tail);
        assert(tail[0] == outside && tail[tail.len() - 1] == lowest);
        assert(estimated_total(nodes, lowest) <= estimated_total(nodes, open[i]));
        assert(graph.has_node(lowest));
        assert(reached(nodes, lowest));
        assert(nodes[lowest.0 as int].h_cost->0 == graph.heuristic(lowest, end));
        assert(nodes[outside.0 as int].h_cost->0 == graph.heuristic(outside, end));
    }
}

/// Closing the open node with the lowest estimated total cost keeps the
/// closed nodes settled.
proof fn lemma_close_settled(
    nodes: Seq<Node>,
    graph: Graph,
    open: Seq<NodeIndex>,
    closed: Seq<NodeIndex>,
    start: NodeIndex,
    end: NodeIndex,
    best: int,
)
    requires
        searching(nodes, graph, open, closed, start),
        expanded(nodes, graph, closed, closed.len() as int),
        settled(nodes, graph, open, closed, start, closed.len() as int),
        estimates_agree(nodes, graph, end),
        graph.consistent_toward(end),
        0 <= best < open.len(),
        forall|i: int|
            0 <= i < open.len() ==> estimated_total(nodes, open[best]) <= estimated_total(
                nodes,
                #[trigger] open[i],
            ),
    ensures
        settled(
            nodes,
            graph,
            open.remove(best),
            closed.push(open[best]),
            start,
            closed.len() as int,
        ),
{
    let open2 = open.remove(best);
    let closed2 = closed.push(open[best]);
    assert forall|k: int, walk: Seq<NodeIndex>|
        0 <= k < closed2.len() && #[trigger] graph.is_route(
            start,
            closed2[k],
            walk,
        ) implies cost_so_far(nodes, closed2[k]) <= graph.cost(walk) by {
        if k < closed.len() {
            reveal(settled);
            assert(graph.is_route(start, closed[k], walk));
        } else {
            lemma_lowest_is_settled(nodes, graph, open, closed, start, end, best, walk);
        }
    }
    assert forall|k: int, i: int|
        0 <= k < closed.len() && k < closed2.len() && 0 <= i < open2.len()
            && #[trigger] graph.has_link(closed2[k], open2[i]) implies cost_so_far(nodes, open2[i])
        <= cost_so_far(nodes, closed2[k]) + graph.weight(closed2[k], open2[i]) by {
        reveal(settled);
        let from = if i < best {
            i
        } else {
            i + 1
        };
        assert(open2[i] == open[from]);
        assert(graph.has_link(closed[k], open[from]));
    }
    reveal(settled);
}

/// Giving a node that is not closed a cheaper way through the node that was
/// closed last keeps the closed nodes settled.
proof fn lemma_relax_settled(
    nodes: Seq<Node>,
    graph: Graph,
    open: Seq<NodeIndex>,
    closed: Seq<NodeIndex>,
    start: NodeIndex,
    neighbour: NodeIndex,
    updated: Node,
)
    requires
        searching(nodes, graph, open, closed, start),
        relaxed(nodes, graph, closed, neighbour, updated),
        expanded(nodes, graph, closed, closed.len() - 1),
        settled(nodes, graph, open, closed, start, closed.len() - 1),
        open.contains(neighbour) ==> updated.g_cost->0 <= cost_so_far(nodes, neighbour),
    ensures
        settled(
            nodes.update(neighbour.0 as int, updated),
            graph,
            with_neighbour(open, neighbour),
            closed,
            start,
            closed.len() - 1,
        ),
{
    reveal(placed);
    reveal(listed);
    reveal(marked);
    let nodes2 = nodes.update(neighbour.0 as int, updated);
    let open2 = with_neighbour(open, neighbour);
    assert forall|k: int| 0 <= k < closed.len() implies nodes2[(#[trigger] closed[k]).0 as int]
        == nodes[closed[k].0 as int] by {
        assert(graph.has_node(closed[k]));
        assert(closed[k] != neighbour);
    }
    assert forall|k: int, walk: Seq<NodeIndex>|
        0 <= k < closed.len() && #[trigger] graph.is_route(
            start,
            closed[k],
            walk,
        ) implies cost_so_far(nodes2, closed[k]) <= graph.cost(walk) by {
        reveal(settled);
        assert(nodes2[closed[k].0 as int] == nodes[closed[k].0 as int]);
    }
    assert forall|k: int, i: int|
        0 <= k < closed.len() - 1 && k < closed.len() && 0 <= i < open2.len()
            && #[trigger] graph.has_link(closed[k], open2[i]) implies cost_so_far(nodes2, open2[i])
        <= cost_so_far(nodes2, closed[k]) + graph.weight(closed[k], open2[i]) by {
        reveal(settled);
        assert(nodes2[closed[k].0 as int] == nodes[closed[k].0 as int]);
        if open2[i] == neighbour {
            if open.contains(neighbour) {
                let m = choose|m: int| 0 <= m < open.len() && open[m] == neighbour;
                assert(graph.has_link(closed[k], open[m]));
            } else {
                reveal(expanded);
                assert(reached(nodes, neighbour));
            }
        } else {
            assert(open[i] == open2[i]);
            assert(graph.has_node(open[i]));
            assert(open[i].0 != neighbour.0);
            assert(nodes2[open[i].0 as int] == nodes[open[i].0 as int]);
            assert(graph.has_link(closed[k], open[i]));
        }
    }
    reveal(settled);
}

/// Whether none of the first `upto` neighbours of the node that was closed
/// last, where it is open, would get a cheaper way through that node.
spec fn offered(
    nodes: Seq<Node>,
    graph: Graph,
    open: Seq<NodeIndex>,
    closed: Seq<NodeIndex>,
    neighbours: Seq<NodeIndex>,
    upto: int,
) -> bool {
    forall|k: int|
        0 <= k < upto && k < neighbours.len() && open.contains(#[trigger] neighbours[k])
            ==> cost_so_far(nodes, neighbours[k]) <= cost_so_far(nodes, closed[closed.len() - 1])
            + graph.weight(closed[closed.len() - 1], neighbours[k])
}

/// Once every neighbour of the node that was closed last has been offered a
/// way through it, that node counts among those that are settled.
proof fn lemma_expand_settled(
    nodes: Seq<Node>,
    graph: Graph,
    open: Seq<NodeIndex>,
    closed: Seq<NodeIndex>,
    start: NodeIndex,
    neighbours: Seq<NodeIndex>,
)
    requires
        closed.len() > 0,
        settled(nodes, graph, open, closed, start, closed.len() - 1),
        offered(nodes, graph, open, closed, neighbours, neighbours.len() as int),
        forall|to: NodeIndex|
            graph.has_link(closed[closed.len() - 1], to) ==> neighbours.contains(to),
    ensures
        settled(nodes, graph, open, closed, start, closed.len() as int),
{
    reveal(settled);
    assert forall|k: int, i: int|
        0 <= k < closed.len() && 0 <= i < open.len() && #[trigger] graph.has_link(
            closed[k],
            open[i],
        ) implies cost_so_far(nodes, open[i]) <= cost_so_far(nodes, closed[k]) + graph.weight(
        closed[k],
        open[i],
    ) by {
        if k == closed.len() - 1 {
            assert(neighbours.contains(open[i]));
            let at = choose|at: int| 0 <= at < neighbours.len() && neighbours[at] == open[i];
            assert(open.contains(neighbours[at]));
        }
    }
}

/// Offering a neighbour a way through the node that was closed last leaves
/// the neighbours that were offered one before as they were, or better off.
proof fn lemma_relax_offered(
    nodes: Seq<Node>,
    graph: Graph,
    open: Seq<NodeIndex>,
    closed: Seq<NodeIndex>,
    start: NodeIndex,
    neighbours: Seq<NodeIndex>,
    upto: int,
    updated: Node,
)
    requires
        searching(nodes, graph, open, closed, start),
        0 <= upto < neighbours.len(),
        relaxed(nodes, graph, closed, neighbours[upto], updated),
        offered(nodes, graph, open, closed, neighbours, upto),
        forall|k: int|
            0 <= k < neighbours.len() ==> graph.has_link(
                closed[closed.len() - 1],
                #[trigger] neighbours[k],
            ),
    ensures
        offered(
            nodes.update(neighbours[upto].0 as int, updated),
            graph,
            with_neighbour(open, neighbours[upto]),
            closed,
            neighbours,
            upto + 1,
        ),
{
    reveal(placed);
    reveal(listed);
    let neighbour = neighbours[upto];
    let current = closed[closed.len() - 1];
    let nodes2 = nodes.update(neighbour.0 as int, updated);
    let open2 = with_neighbour(open, neighbour);
    assert(current != neighbour);
    assert(nodes2[current.0 as int] == nodes[current.0 as int]);
    assert forall|k: int|
        0 <= k < upto + 1 && k < neighbours.len() && open2.contains(
            #[trigger] neighbours[k],
        ) implies cost_so_far(nodes2, neighbours[k]) <= cost_so_far(nodes2, current) + graph.weight(
        current,
        neighbours[k],
    ) by {
        if neighbours[k] != neighbour {
            assert(graph.has_link(current, neighbours[k]));
            assert(graph.has_node(neighbours[k]));
            assert(neighbours[k].0 != neighbour.0);
            assert(nodes2[neighbours[k].0 as int] == nodes[neighbours[k].0 as int]);
            let m = choose|m: int| 0 <= m < open2.len() && open2[m] == neighbours[k];
            assert(open[m] == neighbours[k]);
        }
    }
}

impl Pathfinder {
    /// Calculates the best route between given `start` and `end` nodes, and
    /// remembers it.
    pub fn pathfind(&mut self, start: NodeIndex, end: NodeIndex) -> (found: Result<
        Vec<Node>,
        PathNotFound,
    >)
        requires
            old(self).wf(),
            old(self).graph().has_node(start),
            old(self).graph().has_node(end),
        ensures
            final(self).wf(),
            final(self).graph() == old(self).graph(),
            found is Ok <==> old(self).graph().reachable(start, end),
            match found {
                Ok(route) => {
                    &&& final(self).route() is Some
                    &&& final(self).graph().is_route(start, end, final(self).route()->0)
                    &&& final(self).route()->0.no_duplicates()
                    &&& start == end ==> final(self).route()->0 == seq![start]
                    &&& route@.len() == final(self).route()->0.len()
                    &&& forall|i: int|
                        0 <= i < route@.len() ==> (#[trigger] route@[i])@
                            == final(self).nodes()[final(self).route()->0[i].0 as int]
                    &&& route@[route@.len() - 1]@.g_cost == Some(
                        final(self).graph().cost(final(self).route()->0),
                    )
                    &&& forall|i: int|
                        0 <= i < route@.len() ==> {
                            &&& (#[trigger] route@[i])@.g_cost is Some
                            &&& route@[i]@.h_cost is Some
                            &&& route@[i]@.g_cost->0 + u64::MAX <= u128::MAX
                        }
                    &&& old(self).graph().consistent_toward(end) && old(self).estimates_toward(end)
                        ==> final(self).graph().is_cheapest_route(
                        start,
                        end,
                        final(self).route()->0,
                    )
                    &&& old(self).graph().weights_reach_distances() && old(self).estimates_toward(
                        end,
                    ) ==> final(self).graph().is_cheapest_route(
                        start,
                        end,
                        final(self).route()->0,
                    )
                    &&& forall|lighter: Graph, cheapest: Seq<NodeIndex>|
                        final(self).graph().no_lighter_than(lighter)
                            && #[trigger] lighter.is_cheapest_route(start, end, cheapest)
                            ==> lighter.cost(cheapest) <= final(self).graph().cost(
                            final(self).route()->0,
                        )
                },
                Err(_) => final(self).route() is None,
            },
            old(self).estimates_toward(end) ==> final(self).estimates_toward(end),
            final(self).links() == old(self).links(),
            old(self).estimates_toward(end) ==> final(self).route() == searched_route(
                old(self).graph(),
                old(self).links(),
                start,
                end,
            ),
    {
        let ghost graph = self.graph();
        let ghost informed = graph.consistent_toward(end) && old(self).estimates_toward(end);
        let ghost links = self.links();
        let ghost count = self.nodes@.len() as nat;
        let ghost keen = old(self).estimates_toward(end);
        let ghost whole = search_from(graph, links, end, search_start(count, start), count);
        proof {
            self.lemma_graph_wf();
            if graph.weights_reach_distances() {
                crate::graph::lemma_reaching_weights_are_consistent(graph, end);
            }
        }
        self.best_route = None;
        self.forget_costs();
        let target = self.nodes[end.0];
        let mut first = self.nodes[start.0];
        first.g_cost = Some(0);
        first.h_cost_calculate(&target);
        self.nodes[start.0] = first;
        let mut open: Vec<NodeIndex> = Vec::new();
        open.push(start);
        let mut closed: Vec<NodeIndex> = Vec::new();
        proof {
            reveal(placed);
            reveal(listed);
            reveal(marked);
            reveal(rooted);
            reveal(bounded);
            reveal(linked);
            reveal(expanded);
            assert(open@ =~= seq![start]);
            assert(graph.positions =~= self.graph().positions);
            assert forall|node: NodeIndex| graph.has_node(node) implies (#[trigger] reached(
                self.nodes@,
                node,
            ) <==> open@.contains(node) || closed@.contains(node)) by {
                if node == start {
                    assert(open@[0] == start);
                } else {
                    assert(node.0 != start.0);
                }
            }
            assert(self.nodes.len() <= usize::MAX);
            assert(placed(self.nodes@, graph));
            assert(listed(graph, open@, closed@));
            assert(marked(self.nodes@, graph, open@, closed@));
            assert(rooted(self.nodes@, graph, open@, closed@, start));
            assert(bounded(self.nodes@, open@, closed@));
            assert(linked(self.nodes@, graph, open@, closed@, start));
            assert(searching(self.nodes@, graph, open@, closed@, start));
            if old(self).estimates_toward(end) {
                assert forall|node: NodeIndex|
                    graph.has_node(node) && (#[trigger] self.nodes@[node.0 as int]).h_cost
                        is Some implies self.nodes@[node.0 as int].h_cost->0 == graph.heuristic(
                    node,
                    end,
                ) by {
                    assert(old(self).nodes@[node.0 as int].h_cost is Some ==> old(
                        self,
                    ).nodes@[node.0 as int].h_cost->0 == graph.heuristic(node, end));
                }
            }
            assert(settled(self.nodes@, graph, open@, closed@, start, 0)) by {
                reveal(settled);
            }
            assert(costs_of(self.nodes@) =~= search_start(count, start).costs);
            assert(parents_of(self.nodes@) =~= search_start(count, start).parents);
            assert(closed@ =~= Seq::<NodeIndex>::empty());
            assert(frontier_of(self.nodes@, open@, closed@) == search_start(count, start));
        }
        loop
            invariant
                self.wf(),
                self.best_route is None,
                self.connections == old(self).connections,
                links == old(self).links(),
                count == self.nodes@.len(),
                count == graph.positions.len(),
                keen == old(self).estimates_toward(end),
                whole == search_from(graph, links, end, search_start(count, start), count),
                closed@.len() <= count,
                keen ==> whole == search_from(
                    graph,
                    links,
                    end,
                    frontier_of(self.nodes@, open@, closed@),
                    (count - closed@.len()) as nat,
                ),
                self.nodes@.len() == old(self).nodes@.len(),
                graph == old(self).graph(),
                graph.has_node(end),
                target.position == graph.positions[end.0 as int],
                searching(self.nodes@, graph, open@, closed@, start),
                expanded(self.nodes@, graph, closed@, closed@.len() as int),
                !closed@.contains(end),
                old(self).estimates_toward(end) ==> estimates_agree(self.nodes@, graph, end),
                informed == (graph.consistent_toward(end) && old(self).estimates_toward(end)),
                graph.weights_reach_distances() ==> graph.consistent_toward(end),
                informed ==> settled(
                    self.nodes@,
                    graph,
                    open@,
                    closed@,
                    start,
                    closed@.len() as int,
                ),
            decreases self.nodes@.len() - closed@.len(),
        {
            if open.len() == 0 {
                proof {
                    assert(open@ =~= Seq::empty());
                    assert forall|walk: Seq<NodeIndex>| !graph.is_route(start, end, walk) by {
                        if graph.is_route(start, end, walk) {
                            lemma_exhausted(self.nodes@, graph, closed@, start, walk);
                        }
                    }
                    self.lemma_same_graph(graph);
                    self.lemma_estimates(graph, end);
                    if closed@.len() > 0 {
                        assert(closed@.contains(closed@[closed@.len() - 1]));
                    }
                }
                return Err(PathNotFound);
            }
            proof {
                reveal(listed);
                reveal(marked);
                reveal(bounded);
                reveal(placed);
                assert forall|i: int| 0 <= i < open@.len() implies {
                    &&& (#[trigger] open@[i]).0 < self.nodes@.len()
                    &&& self.nodes@[open@[i].0 as int].g_cost is Some
                    &&& self.nodes@[open@[i].0 as int].h_cost is Some
                    &&& self.nodes@[open@[i].0 as int].g_cost->0 + u64::MAX <= u128::MAX
                } by {
                    assert(graph.has_node(open@[i]));
                    assert(reached(self.nodes@, open@[i]));
                    assert(cost_so_far(self.nodes@, open@[i]) <= closed@.len() * u64::MAX);
                    lemma_distinct_nodes_bounded(closed@, self.nodes@.len() as int);
                    lemma_cost_limit(closed@.len() as int);
                }
            }
            let best = self.lowest_f_cost(&open);
            let ghost open_before = open@;
            let ghost closed_before = closed@;
            let current = open.remove(best);
            closed.push(current);
            let ghost known = frontier_of(self.nodes@, open_before, closed_before);
            let ghost left = frontier_of(self.nodes@, open@, closed@);
            proof {
                lemma_close_node(self.nodes@, graph, open_before, closed_before, start, best as int);
                if keen {
                    assert forall|i: int| 0 <= i < open_before.len() implies {
                        &&& graph.has_node(#[trigger] open_before[i])
                        &&& open_before[i].0 < self.nodes@.len()
                        &&& self.nodes@[open_before[i].0 as int].g_cost is Some
                        &&& self.nodes@[open_before[i].0 as int].h_cost is Some
                    } by {
                        reveal(listed);
                        reveal(marked);
                        reveal(placed);
                        assert(graph.has_node(open_before[i]));
                        assert(reached(self.nodes@, open_before[i]));
                    }
                    lemma_best_is_first_least(
                        self.nodes@,
                        graph,
                        open_before,
                        closed_before,
                        end,
                        best as int,
                    );
                    if closed_before.len() > 0 {
                        assert(closed_before.contains(closed_before[closed_before.len() - 1]));
                    }
                    assert(!search_ended(end, known));
                    assert(whole == search_from(
                        graph,
                        links,
                        end,
                        expand_first(graph, links, end, known),
                        (count - closed@.len()) as nat,
                    ));
                }
            }
            proof {
                if informed {
                    lemma_close_settled(
                        self.nodes@,
                        graph,
                        open_before,
                        closed_before,
                        start,
                        end,
                        best as int,
                    );
                }
                reveal(listed);
                reveal(placed);
                assert(graph.has_node(closed@[closed@.len() - 1]));
            }
            if current.0 == end.0 {
                proof {
                    assert(closed@[closed@.len() - 1] == end);
                }
                let route = self.trace_route(start, end, Ghost(graph), Ghost(open@), Ghost(closed@));
                proof {
                    if keen {
                        assert(expand_first(graph, links, end, known) == left);
                        assert(search_ended(end, left));
                        assert(whole == left);
                    }
                }
                proof {
                    reveal(marked);
                    reveal(bounded);
                    lemma_distinct_nodes_bounded(closed@, self.nodes@.len() as int);
                    lemma_cost_limit(closed@.len() as int);
                    assert forall|k: int| 0 <= k < route@.len() implies {
                        &&& self.nodes@[(#[trigger] route@[k]).0 as int].g_cost is Some
                        &&& self.nodes@[route@[k].0 as int].h_cost is Some
                        &&& self.nodes@[route@[k].0 as int].g_cost->0 + u64::MAX <= u128::MAX
                    } by {
                        assert(closed@.contains(route@[k]));
                        let m = choose|m: int| 0 <= m < closed@.len() && closed@[m] == route@[k];
                        assert(graph.has_node(closed@[m]));
                        assert(reached(self.nodes@, closed@[m]));
                        assert(cost_so_far(self.nodes@, closed@[m]) <= m * u64::MAX);
                    }
                }
                let mut snapshots: Vec<Node> = Vec::with_capacity(route.len());
                let mut i: usize = 0;
                while i < route.len()
                    invariant
                        i <= route@.len(),
                        snapshots@.len() == i,
                        graph.is_walk(route@),
                        route@.no_duplicates(),
                        self.nodes@.len() == graph.positions.len(),
                        forall|k: int|
                            0 <= k < route@.len() ==> {
                                &&& self.nodes@[(#[trigger] route@[k]).0 as int].g_cost is Some
                                &&& self.nodes@[route@[k].0 as int].h_cost is Some
                                &&& self.nodes@[route@[k].0 as int].g_cost->0 + u64::MAX
                                    <= u128::MAX
                            },
                        forall|k: int|
                            0 <= k < i ==> #[trigger] snapshots@[k]
                                == self.nodes@[route@[k].0 as int],
                    decreases route@.len() - i,
                {
                    assert(graph.has_node(route@[i as int]));
                    snapshots.push(self.nodes[route[i].0]);
                    i += 1;
                }
                self.best_route = Some(route);
                proof {
                    self.lemma_same_graph(graph);
                    self.lemma_estimates(graph, end);
                    let walk = self.route()->0;
                    if keen {
                        assert(searched_route(graph, links, start, end) == Some(walk));
                    }
                    assert forall|lighter: Graph, cheapest: Seq<NodeIndex>|
                        graph.no_lighter_than(lighter) && #[trigger] lighter.is_cheapest_route(
                            start,
                            end,
                            cheapest,
                        ) implies lighter.cost(cheapest) <= graph.cost(walk) by {
                        crate::graph::lemma_reweighting_never_cheapens(
                            lighter,
                            graph,
                            start,
                            end,
                            cheapest,
                            walk,
                        );
                    }
                    if start == end {
                        if walk.len() > 1 {
                            assert(walk[0] == walk[walk.len() - 1]);
                        }
                        assert(walk =~= seq![start]);
                    }
                    assert(snapshots@[snapshots@.len() - 1] == self.nodes@[end.0 as int]);
                    assert(graph.has_node(walk[walk.len() - 1]));
                    if informed {
                        assert forall|other: Seq<NodeIndex>| #[trigger]
                            graph.is_route(start, end, other) implies graph.cost(walk)
                            <= graph.cost(other) by {
                            reveal(settled);
                            assert(graph.is_route(start, closed@[closed@.len() - 1], other));
                        }
                    }
                }
                return Ok(snapshots);
            }
            let neighbours = self.neighbours(current);
            let mut i: usize = 0;
            proof {
                self.lemma_same_graph(graph);
            }
            assert(offered(self.nodes@, graph, open@, closed@, neighbours@, 0));
            while i < neighbours.len()
                invariant
                    i <= neighbours@.len(),
                    count == self.nodes@.len(),
                    keen ==> frontier_of(self.nodes@, open@, closed@) == relax_links(
                        graph,
                        left,
                        current,
                        neighbours@,
                        i as int,
                    ),
                    self.wf(),
                    self.best_route is None,
                    self.connections == old(self).connections,
                    self.nodes@.len() == old(self).nodes@.len(),
                    graph == old(self).graph(),
                    graph.weights == link_weights(self.connections@),
                    graph.has_node(end),
                    graph.has_node(current),
                    target.position == graph.positions[end.0 as int],
                    closed@.len() > 0,
                    closed@[closed@.len() - 1] == current,
                    current != end,
                    forall|k: int|
                        0 <= k < neighbours@.len() ==> graph.has_link(
                            current,
                            #[trigger] neighbours@[k],
                        ),
                    forall|to: NodeIndex|
                        graph.has_link(current, to) ==> neighbours@.contains(to),
                    forall|k: int| 0 <= k < i ==> reached(self.nodes@, #[trigger] neighbours@[k]),
                    searching(self.nodes@, graph, open@, closed@, start),
                    expanded(self.nodes@, graph, closed@, closed@.len() - 1),
                    !closed_before.contains(end),
                    closed@ == closed_before.push(current),
                    old(self).estimates_toward(end) ==> estimates_agree(self.nodes@, graph, end),
                    informed ==> settled(
                        self.nodes@,
                        graph,
                        open@,
                        closed@,
                        start,
                        closed@.len() - 1,
                    ),
                    offered(self.nodes@, graph, open@, closed@, neighbours@, i as int),
                decreases neighbours@.len() - i,
            {
                let neighbour = neighbours[i];
                let ghost known_now = frontier_of(self.nodes@, open@, closed@);
                proof {
                    reveal(placed);
                    reveal(listed);
                    reveal(marked);
                    reveal(bounded);
                    assert(graph.has_link(current, neighbours@[i as int]));
                    assert(graph.has_node(neighbour));
                    assert(reached(self.nodes@, current)) by {
                        assert(closed@.contains(current));
                    }
                    assert(cost_so_far(self.nodes@, closed@[closed@.len() - 1]) <= (closed@.len()
                        - 1) * u64::MAX);
                    lemma_distinct_nodes_bounded(closed@, self.nodes@.len() as int);
                    lemma_cost_limit(closed@.len() as int);
                    let at = connection_index(self.connections@, current, neighbour);
                    assert(self.connections@[at].start == current);
                }
                if !contains_node(&closed, neighbour) {
                    let current_node = self.nodes[current.0];
                    let weight = find_weight(&self.connections, current, neighbour);
                    let new_path_g_cost = current_node.g_cost.unwrap() + weight as u128;
                    let current_g_cost = self.nodes[neighbour.0].g_cost;
                    let neighbour_in_open = contains_node(&open, neighbour);
                    if current_g_cost.is_none() || current_g_cost.unwrap() > new_path_g_cost
                        || !neighbour_in_open {
                        let ghost nodes_before = self.nodes@;
                        let ghost open_now = open@;
                        let parent = self.nodes[current.0];
                        let mut updated = self.nodes[neighbour.0];
                        updated.set_g_cost(&parent, current, neighbour, &self.connections);
                        if !neighbour_in_open {
                            updated.h_cost_calculate(&target);
                            open.push(neighbour);
                        }
                        self.nodes[neighbour.0] = updated;
                        proof {
                            assert(reached(nodes_before, neighbour) ==> updated.h_cost is Some);
                            assert(relaxed(nodes_before, graph, closed@, neighbour, updated));
                            assert(updated.g_cost->0 == new_path_g_cost);
                            lemma_frontier_relaxed(
                                nodes_before,
                                graph,
                                open_now,
                                closed@,
                                neighbour,
                                updated,
                            );
                            if open_now.contains(neighbour) {
                                reveal(marked);
                                assert(reached(nodes_before, neighbour));
                                assert(updated.g_cost->0 == new_path_g_cost);
                            }
                            if informed {
                                lemma_relax_settled(
                                    nodes_before,
                                    graph,
                                    open_now,
                                    closed@,
                                    start,
                                    neighbour,
                                    updated,
                                );
                            }
                            lemma_relax_offered(
                                nodes_before,
                                graph,
                                open_now,
                                closed@,
                                start,
                                neighbours@,
                                i as int,
                                updated,
                            );
                            lemma_relax(
                                nodes_before,
                                graph,
                                open_now,
                                closed@,
                                start,
                                neighbour,
                                updated,
                            );
                            assert(self.nodes@ == nodes_before.update(neighbour.0 as int, updated));
                            assert(open@ == with_neighbour(open_now, neighbour));
                            assert forall|k: int| 0 <= k <= i implies reached(
                                self.nodes@,
                                #[trigger] neighbours@[k],
                            ) by {
                                if k < i {
                                    assert(reached(nodes_before, neighbours@[k]));
                                    assert(graph.has_link(current, neighbours@[k]));
                                    assert(graph.has_node(neighbours@[k]));
                                }
                            }
                            lemma_estimate_kept(
                                nodes_before,
                                graph,
                                end,
                                neighbour,
                                updated,
                                target,
                            );
                        }
                    } else {
                        proof {
                            assert(reached(self.nodes@, neighbour));
                            assert(new_path_g_cost == known_now.costs[current.0 as int]->0
                                + graph.weight(current, neighbour));
                            assert(relax_link(graph, known_now, current, neighbour) == known_now);
                        }
                    }
                } else {
                    proof {
                        assert(reached(self.nodes@, neighbour));
                        assert(!open@.contains(neighbour)) by {
                            if open@.contains(neighbour) {
                                let a = choose|a: int| 0 <= a < open@.len() && open@[a] == neighbour;
                                let b = choose|b: int|
                                    0 <= b < closed@.len() && closed@[b] == neighbour;
                                assert(open@[a] != closed@[b]);
                            }
                        }
                        assert(relax_link(graph, known_now, current, neighbour) == known_now);
                    }
                }
                proof {
                    if keen {
                        assert(frontier_of(self.nodes@, open@, closed@) == relax_link(
                            graph,
                            known_now,
                            current,
                            neighbour,
                        ));
                    }
                }
                i += 1;
            }
            proof {
                reveal(expanded);
                assert forall|k: int, to: NodeIndex|
                    0 <= k < closed@.len() && #[trigger] graph.has_link(
                        closed@[k],
                        to,
                    ) implies reached(self.nodes@, to) by {
                    if k == closed@.len() - 1 {
                        assert(graph.has_link(current, to));
                        assert(neighbours@.contains(to));
                        let at = choose|at: int|
                            0 <= at < neighbours@.len() && neighbours@[at] == to;
                        assert(reached(self.nodes@, neighbours@[at]));
                    }
                }
                assert forall|k: int| 0 <= k < closed@.len() implies closed@[k] != end by {
                    if k < closed_before.len() {
                        assert(closed_before[k] == closed@[k]);
                    }
                }
                if informed {
                    lemma_expand_settled(self.nodes@, graph, open@, closed@, start, neighbours@);
                }
                if keen {
                    assert(neighbours@ == ends_from(links, current));
                    assert(frontier_of(self.nodes@, open@, closed@) == expand_first(
                        graph,
                        links,
                        end,
                        known,
                    ));
                }
            }
        }
    }

    /// A pathfinder whose connections are those of `graph`, and whose nodes
    /// lie where `graph` says, searches `graph`.
    proof fn lemma_same_graph(&self, graph: Graph)
        requires
            placed(self.nodes@, graph),
            graph.weights == link_weights(self.connections@),
        ensures
            self.graph() == graph,
    {
        reveal(placed);
        assert(self.graph().positions =~= graph.positions);
    }

    /// Estimates that agree with the graph's are estimates toward `target`.
    proof fn lemma_estimates(&self, graph: Graph, target: NodeIndex)
        requires
            placed(self.nodes@, graph),
            graph.has_node(target),
        ensures
            estimates_agree(self.nodes@, graph, target) ==> self.estimates_toward(target),
    {
        reveal(placed);
        if estimates_agree(self.nodes@, graph, target) {
            assert forall|i: int| 0 <= i < self.nodes@.len() implies match (
            #[trigger] self.nodes@[i]).h_cost {
                Some(cost) => cost == distance(
                    self.nodes@[target.0 as int].position,
                    self.nodes@[i].position,
                ),
                None => true,
            } by {
                let node = NodeIndex(i as usize);
                assert(graph.has_node(node));
                assert(self.nodes@[node.0 as int] == self.nodes@[i]);
            }
        }
    }
}

/// As many links as a list of nodes can hold weigh less than the largest
/// cost.
proof fn lemma_cost_limit(count: int)
    requires
        0 <= count <= usize::MAX,
    ensures
        count * u64::MAX + u64::MAX <= u128::MAX,
{
    assert(count * u64::MAX + u64::MAX <= u128::MAX) by (nonlinear_arith)
        requires
            0 <= count <= 0xffff_ffff_ffff_ffff,
            u64::MAX == 0xffff_ffff_ffff_ffff,
            u128::MAX == 0xffff_ffff_ffff_ffff_ffff_ffff_ffff_ffff,
    ;
}

/// A node that is given a way keeps an estimate that agrees with the graph's.
proof fn lemma_estimate_kept(
    nodes: Seq<Node>,
    graph: Graph,
    target_index: NodeIndex,
    neighbour: NodeIndex,
    updated: Node,
    target: Node,
)
    requires
        placed(nodes, graph),
        graph.has_node(neighbour),
        graph.has_node(target_index),
        target.position == graph.positions[target_index.0 as int],
        updated.position == nodes[neighbour.0 as int].position,
        match nodes[neighbour.0 as int].h_cost {
            Some(known) => updated.h_cost == Some(known),
            None => updated.h_cost is Some ==> updated.h_cost->0 == distance(
                target.position,
                updated.position,
            ),
        },
    ensures
        estimates_agree(nodes, graph, target_index) ==> estimates_agree(
            nodes.update(neighbour.0 as int, updated),
            graph,
            target_index,
        ),
{
    reveal(placed);
    let nodes2 = nodes.update(neighbour.0 as int, updated);
    if estimates_agree(nodes, graph, target_index) {
        assert forall|node: NodeIndex|
            graph.has_node(node) && (#[trigger] nodes2[node.0 as int]).h_cost
                is Some implies nodes2[node.0 as int].h_cost->0 == graph.heuristic(
            node,
            target_index,
        ) by {
            if node.0 == neighbour.0 {
                assert(node == neighbour);
                assert(nodes2[node.0 as int] == updated);
                assert(nodes[neighbour.0 as int].h_cost is Some ==> nodes[node.0 as int].h_cost->0
                    == graph.heuristic(node, target_index));
                assert(nodes[neighbour.0 as int].position == graph.positions[neighbour.0 as int]);
            } else {
                assert(nodes2[node.0 as int] == nodes[node.0 as int]);
            }
        }
    }
}

/// Whether `list` holds a connection from `from` to `to`.
fn holds_connection(list: &Vec<Connection>, from: NodeIndex, to: NodeIndex) -> (found: bool)
    ensures
        found == has_connection(list@, from, to),
{
    let mut i: usize = 0;
    while i < list.len()
        invariant
            i <= list.len(),
            forall|k: int|
                0 <= k < i ==> !((#[trigger] list@[k]).start == from && list@[k].end == to),
        decreases list.len() - i,
    {
        if list[i].start.0 == from.0 && list[i].end.0 == to.0 {
            return true;
        }
        i += 1;
    }
    false
}

} // verus!
