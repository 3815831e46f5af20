//! Uniform-cost search for the cheapest route.

use crate::graph::{is_walk, Edge, Graph};
use crate::solver::heuristic::dijkstra_heuristic;
use crate::solver::route::{
    is_cheapest_path, is_route, reachable, route_end, route_vertices, route_weight,
};
use crate::solver::search::{
    distance_score, path_view, read_off, scores_as, search, search_outcome,
};
use vstd::prelude::*;

verus! {

/// The cheapest route from `start` to `end`: what the search engine scored
/// by the distance walked returns. A vertex reaches itself by the route of
/// one vertex;
/// there is no route where `end` cannot be reached at a weight that a
/// `usize` holds.
pub fn dijkstra(graph: &Graph, start: usize, end: usize) -> (path: Option<Vec<usize>>)
    ensures
        path.is_some() <==> reachable(graph@, start, end),
        path.is_some() ==> {
            &&& is_cheapest_path(graph@, start, path.unwrap()@)
            &&& is_walk(graph@, path.unwrap()@)
            &&& path.unwrap()@.first() == start
            &&& path.unwrap()@.last() == end
            &&& path.unwrap()@.no_duplicates()
        },
        start == end ==> path_view(path) == Some(seq![start]),
        start != end ==> path_view(path) == read_off(
            search_outcome(graph@, distance_score(), start, end).prev,
            start,
            end,
        ),
{
    if start == end {
        let mut path: Vec<usize> = Vec::new();
        path.push(start);
        proof {
            let stay = Seq::<Edge>::empty();
            assert(is_route(graph@, start, stay));
            assert(route_end(start, stay) == start);
            assert(route_weight(stay) == 0);
            assert(route_vertices(start, stay) =~= path@);
            assert(reachable(graph@, start, end));
            assert(is_cheapest_path(graph@, start, path@));
        }
        return Some(path);
    }
    let context = search(graph, start, end, dijkstra_heuristic);
    proof {
        assert(scores_as(dijkstra_heuristic, distance_score()));
        assert(crate::solver::search::is_search_outcome(
            graph@,
            distance_score(),
            start,
            end,
            context.visited@,
            path_view(context.path),
        ));
    }
    context.path
}

} // verus!
