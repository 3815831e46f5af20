//! Routes through a graph: what it means to reach a vertex, and at what
//! cost.

use crate::graph::{connects, connects_iff_edge, has_edge, is_walk, Adjacency, Edge};
use vstd::prelude::*;

verus! {

/// A route is the list of edges taken, one after the other, from a start
/// vertex. This is the vertex at which the edge at `index` is taken.
pub open spec fn route_source(start: usize, route: Seq<Edge>, index: int) -> usize {
    if index <= 0 {
        start
    } else {
        route[index - 1].to
    }
}

/// The vertex at which a route from `start` ends.
pub open spec fn route_end(start: usize, route: Seq<Edge>) -> usize {
    route_source(start, route, route.len() as int)
}

/// Whether every edge of `route` is an edge of the graph that leaves the
/// vertex the route has come to.
pub open spec fn is_route(graph: Adjacency, start: usize, route: Seq<Edge>) -> bool {
    forall|i: int|
        0 <= i < route.len() ==> has_edge(graph, route_source(start, route, i), #[trigger] route[i])
}

/// The sum of the weights along a route.
pub open spec fn route_weight(route: Seq<Edge>) -> nat
    decreases route.len(),
{
    if route.len() == 0 {
        0
    } else {
        route_weight(route.drop_last()) + route.last().weight as nat
    }
}

/// The vertices a route from `start` passes, `start` included.
pub open spec fn route_vertices(start: usize, route: Seq<Edge>) -> Seq<usize> {
    Seq::new(route.len() + 1, |i: int| route_source(start, route, i))
}

/// Whether some route leads from `start` to `target` at a total weight that
/// a distance can hold, that is, at most `usize::MAX`.
pub open spec fn reachable(graph: Adjacency, start: usize, target: usize) -> bool {
    exists|route: Seq<Edge>|
        is_route(graph, start, route) && route_end(start, route) == target && route_weight(route)
            <= usize::MAX
}

/// Whether some route leads from `start` to `target`, at whatever weight.
pub open spec fn connected(graph: Adjacency, start: usize, target: usize) -> bool {
    exists|route: Seq<Edge>| is_route(graph, start, route) && route_end(start, route) == target
}

/// Whether `path` lists the vertices of a route from `start` that no other
/// route from `start` to the same vertex undercuts.
pub open spec fn is_cheapest_path(graph: Adjacency, start: usize, path: Seq<usize>) -> bool {
    exists|route: Seq<Edge>|
        {
            &&& is_route(graph, start, route)
            &&& route_vertices(start, route) == path
            &&& forall|other: Seq<Edge>|
                is_route(graph, start, other) && route_end(start, other) == route_end(start, route)
                    ==> route_weight(route) <= route_weight(other)
        }
}

/// A route extended by an edge from its end is a route, heavier by the
/// weight of the edge.
pub proof fn route_extended(graph: Adjacency, start: usize, route: Seq<Edge>, edge: Edge)
    requires
        is_route(graph, start, route),
        has_edge(graph, route_end(start, route), edge),
    ensures
        is_route(graph, start, route.push(edge)),
        route_end(start, route.push(edge)) == edge.to,
        route_weight(route.push(edge)) == route_weight(route) + edge.weight,
{
    let longer = route.push(edge);
    assert(longer.drop_last() =~= route);
    assert forall|i: int| 0 <= i < longer.len() implies has_edge(
        graph,
        route_source(start, longer, i),
        #[trigger] longer[i],
    ) by {
        if i < route.len() {
            assert(longer[i] == route[i]);
            assert(route_source(start, longer, i) == route_source(start, route, i));
        }
    }
}

/// A route without its last edge is a route to the vertex that edge left.
pub proof fn route_shortened(graph: Adjacency, start: usize, route: Seq<Edge>)
    requires
        is_route(graph, start, route),
        route.len() > 0,
    ensures
        is_route(graph, start, route.drop_last()),
        has_edge(graph, route_end(start, route.drop_last()), route.last()),
        route_weight(route) == route_weight(route.drop_last()) + route.last().weight,
{
    let shorter = route.drop_last();
    assert forall|i: int| 0 <= i < shorter.len() implies has_edge(
        graph,
        route_source(start, shorter, i),
        #[trigger] shorter[i],
    ) by {
        assert(shorter[i] == route[i]);
        assert(route_source(start, shorter, i) == route_source(start, route, i));
    }
    assert(route_source(start, route, route.len() - 1) == route_end(start, shorter));
}

/// The vertices of a route form a walk from its start to its end.
pub proof fn route_is_walk(graph: Adjacency, start: usize, route: Seq<Edge>)
    requires
        is_route(graph, start, route),
    ensures
        is_walk(graph, route_vertices(start, route)),
        route_vertices(start, route).first() == start,
        route_vertices(start, route).last() == route_end(start, route),
{
    let path = route_vertices(start, route);
    assert forall|i: int| 0 <= i < path.len() - 1 implies connects(
        graph,
        #[trigger] path[i],
        path[i + 1],
    ) by {
        assert(has_edge(graph, route_source(start, route, i), route[i]));
        connects_iff_edge(graph, path[i], path[i + 1]);
    }
}

/// Two cheapest paths between the same vertices weigh the same: whichever
/// of them a search returns, the cost of the answer is the same.
pub proof fn cheapest_paths_agree(
    graph: Adjacency,
    start: usize,
    first: Seq<usize>,
    second: Seq<usize>,
)
    requires
        is_cheapest_path(graph, start, first),
        is_cheapest_path(graph, start, second),
        first.last() == second.last(),
    ensures
        exists|one: Seq<Edge>, other: Seq<Edge>|
            {
                &&& is_route(graph, start, one)
                &&& is_route(graph, start, other)
                &&& route_vertices(start, one) == first
                &&& route_vertices(start, other) == second
                &&& route_weight(one) == route_weight(other)
            },
{
    let one = choose|route: Seq<Edge>|
        {
            &&& is_route(graph, start, route)
            &&& route_vertices(start, route) == first
            &&& forall|other: Seq<Edge>|
                is_route(graph, start, other) && route_end(start, other) == route_end(start, route)
                    ==> route_weight(route) <= route_weight(other)
        };
    let other = choose|route: Seq<Edge>|
        {
            &&& is_route(graph, start, route)
            &&& route_vertices(start, route) == second
            &&& forall|other: Seq<Edge>|
                is_route(graph, start, other) && route_end(start, other) == route_end(start, route)
                    ==> route_weight(route) <= route_weight(other)
        };
    assert(route_vertices(start, one).last() == route_end(start, one));
    assert(route_vertices(start, other).last() == route_end(start, other));
    assert(route_weight(one) <= route_weight(other));
    assert(route_weight(other) <= route_weight(one));
}

} // verus!
