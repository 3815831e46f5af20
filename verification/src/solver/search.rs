//! The search engine.

use crate::graph::{edge_pool, edges_of, has_edge, is_walk, Adjacency, Edge, Graph};
use crate::solver::frontier::{cheapest, cheapest_is_least, Frontier, Node};
use crate::solver::heuristic::capped_sum;
use crate::solver::route::{
    is_cheapest_path, is_route, reachable, route_end, route_extended, route_is_walk,
    route_shortened, route_source, route_vertices, route_weight,
};
use std::collections::HashMap;
use vstd::prelude::*;

verus! {

broadcast use vstd::std_specs::hash::group_hash_axioms;

/// What one search leaves behind: the vertices it ran between, the route
/// if one was found, and the vertices in the order in which they were
/// expanded.
pub struct Context {
    pub start: usize,
    pub end: usize,
    pub path: Option<Vec<usize>>,
    pub visited: Vec<usize>,
}

impl Context {
    /// The record of a search from `start` to `end` that has not begun.
    pub fn search(start: usize, end: usize) -> (context: Context)
        ensures
            context.start == start,
            context.end == end,
            context.path.is_none(),
            context.visited@ == Seq::<usize>::empty(),
    {
        Context { start, end, visited: Vec::new(), path: None }
    }

    /// Records that `vertex` was expanded.
    pub fn visit(&mut self, vertex: usize)
        ensures
            final(self).visited@ == old(self).visited@.push(vertex),
            final(self).start == old(self).start,
            final(self).end == old(self).end,
            final(self).path == old(self).path,
    {
        self.visited.push(vertex);
    }

    /// Records the route that was found.
    pub fn set_path(&mut self, path: Vec<usize>)
        ensures
            final(self).path == Some(path),
            final(self).start == old(self).start,
            final(self).end == old(self).end,
            final(self).visited == old(self).visited,
    {
        self.path = Some(path);
    }
}

/// The vertex reached from `vertex` by following the predecessor map for
/// `steps` steps, or for as long as there is a predecessor.
pub open spec fn back(prev: Map<usize, usize>, vertex: usize, steps: nat) -> usize
    decreases steps,
{
    if steps == 0 {
        vertex
    } else {
        let at = back(prev, vertex, (steps - 1) as nat);
        if prev.contains_key(at) {
            prev[at]
        } else {
            at
        }
    }
}

/// Whether following the predecessor map from `vertex` comes to a vertex
/// without predecessor.
pub open spec fn chain_ends(prev: Map<usize, usize>, vertex: usize) -> bool {
    exists|steps: nat| !prev.contains_key(back(prev, vertex, steps))
}

/// Whether `steps` is the number of vertices with a predecessor met from
/// `vertex` on.
pub open spec fn is_chain_len(prev: Map<usize, usize>, vertex: usize, steps: nat) -> bool {
    &&& !prev.contains_key(back(prev, vertex, steps))
    &&& forall|k: nat| k < steps ==> prev.contains_key(#[trigger] back(prev, vertex, k))
}

/// The number of vertices with a predecessor met from `vertex` on.
pub open spec fn chain_len(prev: Map<usize, usize>, vertex: usize) -> nat {
    choose|steps: nat| is_chain_len(prev, vertex, steps)
}

/// The vertices with a predecessor met from `vertex` on, `vertex` first.
pub open spec fn chain(prev: Map<usize, usize>, vertex: usize) -> Seq<usize> {
    Seq::new(chain_len(prev, vertex), |i: int| back(prev, vertex, i as nat))
}

/// A chain that ends has a length, and only one.
pub proof fn chain_len_is_unique(prev: Map<usize, usize>, vertex: usize, steps: nat)
    requires
        !prev.contains_key(back(prev, vertex, steps)),
    ensures
        is_chain_len(prev, vertex, chain_len(prev, vertex)),
        chain_len(prev, vertex) <= steps,
        forall|other: nat| is_chain_len(prev, vertex, other) ==> other == chain_len(prev, vertex),
    decreases steps,
{
    if exists|k: nat| k < steps && !prev.contains_key(back(prev, vertex, k)) {
        let k = choose|k: nat| k < steps && !prev.contains_key(back(prev, vertex, k));
        chain_len_is_unique(prev, vertex, k);
    } else {
        assert(is_chain_len(prev, vertex, steps));
        let len = chain_len(prev, vertex);
        assert(is_chain_len(prev, vertex, len));
        if len > steps {
            assert(prev.contains_key(back(prev, vertex, steps)));
        }
    }
    let len = chain_len(prev, vertex);
    assert forall|other: nat| is_chain_len(prev, vertex, other) implies other == len by {
        if other < len {
            assert(prev.contains_key(back(prev, vertex, other)));
        }
        if len < other {
            assert(prev.contains_key(back(prev, vertex, len)));
        }
    }
}

/// Reads the route to `end` off a predecessor map: the vertices met from
/// `end` on while there is a predecessor, then `start`, in reverse. There
/// is no route when `end` has no predecessor.
pub fn reconstruct(prev: &HashMap<usize, usize>, start: usize, end: usize) -> (path: Option<
    Vec<usize>,
>)
    requires
        chain_ends(prev@, end),
    ensures
        path.is_some() == prev@.contains_key(end),
        path.is_some() ==> path.unwrap()@ == seq![start] + chain(prev@, end).reverse(),
{
    if !prev.contains_key(&end) {
        return None;
    }
    let ghost bound = choose|steps: nat| !prev@.contains_key(back(prev@, end, steps));
    let mut found: Vec<usize> = Vec::new();
    let mut current = end;
    while prev.contains_key(&current)
        invariant
            !prev@.contains_key(back(prev@, end, bound)),
            found@.len() <= bound,
            current == back(prev@, end, found@.len()),
            forall|k: nat| k < found@.len() ==> prev@.contains_key(#[trigger] back(prev@, end, k)),
            found@ == Seq::new(found@.len(), |i: int| back(prev@, end, i as nat)),
        decreases bound - found@.len(),
    {
        let next = *prev.get(&current).unwrap();
        found.push(current);
        assert(found@ =~= Seq::new(found@.len(), |i: int| back(prev@, end, i as nat)));
        current = next;
    }
    proof {
        assert(is_chain_len(prev@, end, found@.len()));
        chain_len_is_unique(prev@, end, bound);
    }
    let mut path: Vec<usize> = Vec::new();
    path.push(start);
    let mut i: usize = found.len();
    while i > 0
        invariant
            i <= found@.len(),
            path@.len() == 1 + found@.len() - i,
            path@[0] == start,
            forall|j: int| 1 <= j < path@.len() ==> path@[j] == found@[found@.len() - j],
        decreases i,
    {
        i -= 1;
        path.push(found[i]);
    }
    assert(path@ =~= seq![start] + chain(prev@, end).reverse());
    Some(path)
}

/// The distance known for `vertex`, or more than any distance if none is.
pub open spec fn dist_or_beyond(dist: Map<usize, usize>, vertex: usize) -> int {
    if dist.contains_key(vertex) {
        dist[vertex] as int
    } else {
        usize::MAX + 1
    }
}

/// Whether a scoring function returns the distance walked and nothing
/// else, as `dijkstra_heuristic` does.
pub open spec fn scores_by_distance<F: Fn(usize, usize, usize) -> usize>(heuristic: F) -> bool {
    forall|node: usize, dist: usize, target: usize, score: usize|
        call_ensures(heuristic, (node, dist, target), score) ==> score == dist
}

/// Whether `estimate` never overrates what is left of the way to `end`: it
/// is zero at `end`, nowhere negative, and drops along an edge by no more
/// than the edge weighs.
pub open spec fn is_consistent(graph: Adjacency, end: usize, estimate: spec_fn(usize) -> int) -> bool {
    &&& estimate(end) == 0
    &&& forall|vertex: usize| #[trigger] estimate(vertex) >= 0
    &&& forall|from: usize, edge: Edge| #[trigger]
        has_edge(graph, from, edge) ==> estimate(from) <= edge.weight + estimate(edge.to)
}

/// Whether a scoring function returns, for the target `end`, the distance
/// walked plus `estimate` of the vertex, capped at the largest number.
pub open spec fn scores_by_estimate<F: Fn(usize, usize, usize) -> usize>(
    heuristic: F,
    end: usize,
    estimate: spec_fn(usize) -> int,
) -> bool {
    forall|node: usize, dist: usize, score: usize|
        call_ensures(heuristic, (node, dist, end), score) ==> score == capped_sum(
            estimate(node),
            dist as int,
        )
}

/// Whether no route from `start` to `end` that a distance can hold weighs
/// less than `distance`.
pub open spec fn is_least_distance(graph: Adjacency, start: usize, end: usize, distance: int) -> bool {
    forall|route: Seq<Edge>|
        is_route(graph, start, route) && route_end(start, route) == end && route_weight(route)
            <= usize::MAX ==> distance <= #[trigger] route_weight(route)
}

/// Whether `path` lists the vertices of a route from `start` to `end` whose
/// weight a distance can hold.
pub open spec fn is_route_path(graph: Adjacency, start: usize, end: usize, path: Seq<usize>) -> bool {
    exists|route: Seq<Edge>|
        {
            &&& is_route(graph, start, route)
            &&& route_end(start, route) == end
            &&& route_vertices(start, route) == path
            &&& route_weight(route) <= usize::MAX
        }
}

/// What a search holds between two turns of its loop: the pending
/// entries, the distances and predecessors found, the vertices expanded,
/// and whether it has stopped.
pub struct SearchState {
    pub queue: Seq<Node>,
    pub dist: Map<usize, usize>,
    pub prev: Map<usize, usize>,
    pub visited: Seq<usize>,
    pub done: bool,
}

/// A scoring function as a mathematical function of vertex, distance and
/// target.
pub type Score = spec_fn(usize, usize, usize) -> usize;

/// Whether a scoring function returns what `score` names, on every input.
pub open spec fn scores_as<F: Fn(usize, usize, usize) -> usize>(heuristic: F, score: Score) -> bool {
    forall|node: usize, dist: usize, target: usize, result: usize|
        call_ensures(heuristic, (node, dist, target), result) ==> result == score(node, dist, target)
}

/// The score that is the distance walked, as `dijkstra_heuristic` gives it.
pub open spec fn distance_score() -> Score {
    |node: usize, dist: usize, target: usize| dist
}

/// A search before its first turn: only `start` is known and pending.
pub open spec fn search_begun(score: Score, start: usize, end: usize) -> SearchState {
    SearchState {
        queue: Seq::<Node>::empty().push(Node { id: start, cost: score(start, 0, end) }),
        dist: Map::<usize, usize>::empty().insert(start, 0),
        prev: Map::<usize, usize>::empty(),
        visited: Seq::<usize>::empty(),
        done: false,
    }
}

/// The state after `edge` from `current`, which lies `reach` from the
/// start, was looked at: where the edge offers its target a distance that
/// a `usize` holds and that is shorter than the one known, or the first
/// one, the target gets that distance, `current` as its predecessor and a
/// new entry in the queue.
pub open spec fn relaxed_by(
    state: SearchState,
    score: Score,
    end: usize,
    current: usize,
    reach: usize,
    edge: Edge,
) -> SearchState {
    let total = reach + edge.weight;
    if total <= usize::MAX && (!state.dist.contains_key(edge.to) || total < state.dist[edge.to]) {
        SearchState {
            queue: state.queue.push(
                Node { id: edge.to, cost: score(edge.to, total as usize, end) },
            ),
            dist: state.dist.insert(edge.to, total as usize),
            prev: state.prev.insert(edge.to, current),
            visited: state.visited,
            done: state.done,
        }
    } else {
        state
    }
}

/// The state after the first `count` of `edges` were looked at in turn.
pub open spec fn relaxed_upto(
    state: SearchState,
    score: Score,
    end: usize,
    current: usize,
    reach: usize,
    edges: Seq<Edge>,
    count: nat,
) -> SearchState
    decreases count,
{
    if count == 0 {
        state
    } else {
        relaxed_by(
            relaxed_upto(state, score, end, current, reach, edges, (count - 1) as nat),
            score,
            end,
            current,
            reach,
            edges[count - 1],
        )
    }
}

/// One turn of the loop: the search stops when nothing is pending or when
/// the cheapest pending entry is `end`; otherwise the vertex of that entry
/// is recorded as visited and its edges are looked at in turn. A search
/// that has stopped stays as it is.
pub open spec fn search_turn(graph: Adjacency, score: Score, end: usize, state: SearchState) -> SearchState {
    if state.done {
        state
    } else if state.queue.len() == 0 {
        SearchState {
            queue: state.queue,
            dist: state.dist,
            prev: state.prev,
            visited: state.visited,
            done: true,
        }
    } else {
        let taken = cheapest(state.queue);
        let current = state.queue[taken].id;
        let rest = state.queue.remove(taken);
        if current == end {
            SearchState {
                queue: rest,
                dist: state.dist,
                prev: state.prev,
                visited: state.visited,
                done: true,
            }
        } else {
            let opened = SearchState {
                queue: rest,
                dist: state.dist,
                prev: state.prev,
                visited: state.visited.push(current),
                done: false,
            };
            if graph.contains_key(current) {
                relaxed_upto(
                    opened,
                    score,
                    end,
                    current,
                    state.dist[current],
                    graph[current],
                    graph[current].len(),
                )
            } else {
                opened
            }
        }
    }
}

/// The state of the search after `turns` turns of its loop.
pub open spec fn search_run(graph: Adjacency, score: Score, start: usize, end: usize, turns: nat) -> SearchState
    decreases turns,
{
    if turns == 0 {
        search_begun(score, start, end)
    } else {
        search_turn(graph, score, end, search_run(graph, score, start, end, (turns - 1) as nat))
    }
}

/// The route read off a predecessor map, as `reconstruct` reads it.
pub open spec fn read_off(prev: Map<usize, usize>, start: usize, end: usize) -> Option<Seq<usize>> {
    if prev.contains_key(end) {
        Some(seq![start] + chain(prev, end).reverse())
    } else {
        None
    }
}

/// A route as a sequence, if there is one.
pub open spec fn path_view(path: Option<Vec<usize>>) -> Option<Seq<usize>> {
    match path {
        Some(path) => Some(path@),
        None => None,
    }
}

/// The state in which the search scored by `score` stops: its state after
/// a number of turns after which it has stopped.
pub open spec fn search_outcome(graph: Adjacency, score: Score, start: usize, end: usize) -> SearchState {
    search_run(
        graph,
        score,
        start,
        end,
        choose|turns: nat| search_run(graph, score, start, end, turns).done,
    )
}

/// Whether `visited` and `path` are what the search scored by `score`
/// records and finds: the search stops, `visited` is what it has recorded
/// then, and `path` is read off its predecessors.
pub open spec fn is_search_outcome(
    graph: Adjacency,
    score: Score,
    start: usize,
    end: usize,
    visited: Seq<usize>,
    path: Option<Seq<usize>>,
) -> bool {
    &&& search_outcome(graph, score, start, end).done
    &&& search_outcome(graph, score, start, end).visited == visited
    &&& read_off(search_outcome(graph, score, start, end).prev, start, end) == path
}

/// A search that has stopped is not changed by further turns.
pub proof fn stopped_search_stays(
    graph: Adjacency,
    score: Score,
    start: usize,
    end: usize,
    turns: nat,
    later: nat,
)
    requires
        search_run(graph, score, start, end, turns).done,
        turns <= later,
    ensures
        search_run(graph, score, start, end, later) == search_run(graph, score, start, end, turns),
    decreases later,
{
    if later > turns {
        stopped_search_stays(graph, score, start, end, turns, (later - 1) as nat);
    }
}

/// Whenever the search has stopped, its state is its outcome: the outcome
/// can be read at any number of turns after which the search is done.
pub proof fn search_outcome_at(graph: Adjacency, score: Score, start: usize, end: usize, turns: nat)
    requires
        search_run(graph, score, start, end, turns).done,
    ensures
        search_outcome(graph, score, start, end) == search_run(graph, score, start, end, turns),
{
    let chosen = choose|turns: nat| search_run(graph, score, start, end, turns).done;
    if chosen <= turns {
        stopped_search_stays(graph, score, start, end, chosen, turns);
    } else {
        stopped_search_stays(graph, score, start, end, turns, chosen);
    }
}

/// Running the search again on the same graph, between the same ends and
/// with the same scoring records the same vertices and finds the same
/// path.
pub proof fn search_is_repeatable(
    graph: Adjacency,
    score: Score,
    start: usize,
    end: usize,
    visited: Seq<usize>,
    path: Option<Seq<usize>>,
    visited_again: Seq<usize>,
    path_again: Option<Seq<usize>>,
)
    requires
        is_search_outcome(graph, score, start, end, visited, path),
        is_search_outcome(graph, score, start, end, visited_again, path_again),
    ensures
        visited == visited_again,
        path == path_again,
{
}

// Whatever the scoring function is as a mathematical function, the run of
// that many turns has come to `state`.
#[verifier::opaque]
spec fn tracks<F: Fn(usize, usize, usize) -> usize>(
    heuristic: F,
    graph: Adjacency,
    start: usize,
    end: usize,
    turns: nat,
    state: SearchState,
) -> bool {
    forall|score: Score| #[trigger]
        scores_as(heuristic, score) ==> search_run(graph, score, start, end, turns) == state
}

// Whatever the scoring function is as a mathematical function, looking at
// the first `count` edges has led from `opened` to `state`.
#[verifier::opaque]
spec fn tracks_edges<F: Fn(usize, usize, usize) -> usize>(
    heuristic: F,
    end: usize,
    current: usize,
    reach: usize,
    edges: Seq<Edge>,
    count: nat,
    opened: SearchState,
    state: SearchState,
) -> bool {
    forall|score: Score| #[trigger]
        scores_as(heuristic, score) ==> relaxed_upto(opened, score, end, current, reach, edges, count)
            == state
}

proof fn tracks_begin<F: Fn(usize, usize, usize) -> usize>(
    heuristic: F,
    graph: Adjacency,
    start: usize,
    end: usize,
    first: usize,
)
    requires
        call_ensures(heuristic, (start, 0usize, end), first),
    ensures
        tracks(
            heuristic,
            graph,
            start,
            end,
            0,
            SearchState {
                queue: Seq::<Node>::empty().push(Node { id: start, cost: first }),
                dist: Map::<usize, usize>::empty().insert(start, 0),
                prev: Map::<usize, usize>::empty(),
                visited: Seq::<usize>::empty(),
                done: false,
            },
        ),
{
    reveal(tracks);
}

proof fn tracks_stop<F: Fn(usize, usize, usize) -> usize>(
    heuristic: F,
    graph: Adjacency,
    start: usize,
    end: usize,
    turns: nat,
    state: SearchState,
)
    requires
        tracks(heuristic, graph, start, end, turns, state),
        !state.done,
        state.queue.len() == 0 || state.queue[cheapest(state.queue)].id == end,
    ensures
        tracks(
            heuristic,
            graph,
            start,
            end,
            turns + 1,
            SearchState {
                queue: if state.queue.len() == 0 {
                    state.queue
                } else {
                    state.queue.remove(cheapest(state.queue))
                },
                dist: state.dist,
                prev: state.prev,
                visited: state.visited,
                done: true,
            },
        ),
{
    reveal(tracks);
}

proof fn tracks_edges_begin<F: Fn(usize, usize, usize) -> usize>(
    heuristic: F,
    end: usize,
    current: usize,
    reach: usize,
    edges: Seq<Edge>,
    opened: SearchState,
)
    ensures
        tracks_edges(heuristic, end, current, reach, edges, 0, opened, opened),
{
    reveal(tracks_edges);
}

proof fn tracks_edges_step<F: Fn(usize, usize, usize) -> usize>(
    heuristic: F,
    end: usize,
    current: usize,
    reach: usize,
    edges: Seq<Edge>,
    count: nat,
    opened: SearchState,
    state: SearchState,
    cost: usize,
)
    requires
        tracks_edges(heuristic, end, current, reach, edges, count, opened, state),
        count < edges.len(),
        reach + edges[count as int].weight <= usize::MAX && (!state.dist.contains_key(
            edges[count as int].to,
        ) || reach + edges[count as int].weight < state.dist[edges[count as int].to])
            ==> call_ensures(
            heuristic,
            (edges[count as int].to, (reach + edges[count as int].weight) as usize, end),
            cost,
        ),
    ensures
        tracks_edges(
            heuristic,
            end,
            current,
            reach,
            edges,
            count + 1,
            opened,
            if reach + edges[count as int].weight <= usize::MAX && (!state.dist.contains_key(
                edges[count as int].to,
            ) || reach + edges[count as int].weight < state.dist[edges[count as int].to]) {
                SearchState {
                    queue: state.queue.push(Node { id: edges[count as int].to, cost }),
                    dist: state.dist.insert(
                        edges[count as int].to,
                        (reach + edges[count as int].weight) as usize,
                    ),
                    prev: state.prev.insert(edges[count as int].to, current),
                    visited: state.visited,
                    done: state.done,
                }
            } else {
                state
            },
        ),
{
    reveal(tracks_edges);
}

proof fn tracks_turn<F: Fn(usize, usize, usize) -> usize>(
    heuristic: F,
    graph: Adjacency,
    start: usize,
    end: usize,
    turns: nat,
    state: SearchState,
    after: SearchState,
)
    requires
        tracks(heuristic, graph, start, end, turns, state),
        !state.done,
        state.queue.len() > 0,
        state.queue[cheapest(state.queue)].id != end,
        ({
            let current = state.queue[cheapest(state.queue)].id;
            let opened = SearchState {
                queue: state.queue.remove(cheapest(state.queue)),
                dist: state.dist,
                prev: state.prev,
                visited: state.visited.push(current),
                done: false,
            };
            if graph.contains_key(current) {
                tracks_edges(
                    heuristic,
                    end,
                    current,
                    state.dist[current],
                    graph[current],
                    graph[current].len(),
                    opened,
                    after,
                )
            } else {
                after == opened
            }
        }),
    ensures
        tracks(heuristic, graph, start, end, turns + 1, after),
{
    reveal(tracks);
    reveal(tracks_edges);
}

proof fn tracks_end<F: Fn(usize, usize, usize) -> usize>(
    heuristic: F,
    graph: Adjacency,
    start: usize,
    end: usize,
    turns: nat,
    state: SearchState,
    path: Option<Seq<usize>>,
)
    requires
        tracks(heuristic, graph, start, end, turns, state),
        state.done,
        path == read_off(state.prev, start, end),
    ensures
        forall|score: Score| #[trigger]
            scores_as(heuristic, score) ==> is_search_outcome(
                graph,
                score,
                start,
                end,
                state.visited,
                path,
            ),
{
    reveal(tracks);
    assert forall|score: Score| #[trigger] scores_as(heuristic, score) implies is_search_outcome(
        graph,
        score,
        start,
        end,
        state.visited,
        path,
    ) by {
        search_outcome_at(graph, score, start, end, turns);
    }
}

// What a search knows beyond its maps: for each vertex found the route it
// was found by, the edge its predecessor reaches it by, and when its
// distance was last lowered.
struct Ledger {
    ways: Map<usize, Seq<Edge>>,
    via: Map<usize, Edge>,
    stamp: Map<usize, nat>,
    clock: nat,
}

impl Ledger {
    spec fn relaxed(self, from: usize, edge: Edge) -> Ledger {
        Ledger {
            ways: self.ways.insert(edge.to, self.ways[from].push(edge)),
            via: self.via.insert(edge.to, edge),
            stamp: self.stamp.insert(edge.to, self.clock),
            clock: self.clock + 1,
        }
    }
}

spec fn known(
    graph: Adjacency,
    start: usize,
    dist: Map<usize, usize>,
    ledger: Ledger,
    vertex: usize,
) -> bool {
    &&& ledger.ways.contains_key(vertex)
    &&& is_route(graph, start, ledger.ways[vertex])
    &&& route_end(start, ledger.ways[vertex]) == vertex
    &&& route_weight(ledger.ways[vertex]) == dist[vertex]
    &&& ledger.stamp.contains_key(vertex)
    &&& ledger.stamp[vertex] < ledger.clock
}

spec fn linked(
    graph: Adjacency,
    dist: Map<usize, usize>,
    prev: Map<usize, usize>,
    ledger: Ledger,
    vertex: usize,
) -> bool {
    &&& dist.contains_key(prev[vertex])
    &&& ledger.via.contains_key(vertex)
    &&& has_edge(graph, prev[vertex], ledger.via[vertex])
    &&& ledger.via[vertex].to == vertex
    &&& dist[prev[vertex]] + ledger.via[vertex].weight <= dist[vertex]
    &&& (dist[prev[vertex]] < dist[vertex] || ledger.stamp[prev[vertex]] < ledger.stamp[vertex])
}

// The distances are weights of routes, and the predecessors lead back to
// the start along edges, never in a circle.
spec fn sound(
    graph: Adjacency,
    start: usize,
    dist: Map<usize, usize>,
    prev: Map<usize, usize>,
    ledger: Ledger,
) -> bool {
    &&& dist.contains_key(start)
    &&& dist[start] == 0
    &&& !prev.contains_key(start)
    &&& forall|v: usize|
        #![trigger prev.contains_key(v)]
        #![trigger dist.contains_key(v)]
        prev.contains_key(v) <==> dist.contains_key(v) && v != start
    &&& forall|v: usize| #[trigger] dist.contains_key(v) ==> known(graph, start, dist, ledger, v)
    &&& forall|v: usize| #[trigger] prev.contains_key(v) ==> linked(graph, dist, prev, ledger, v)
}

// No edge from `vertex` would lower a distance.
spec fn settled(graph: Adjacency, dist: Map<usize, usize>, vertex: usize) -> bool {
    forall|edge: Edge| #[trigger]
        has_edge(graph, vertex, edge) ==> dist[vertex] + edge.weight >= dist_or_beyond(dist, edge.to)
}

// `vertex` waits in the queue under its present distance.
spec fn pending(dist: Map<usize, usize>, queue: Seq<Node>, tags: Seq<usize>, vertex: usize) -> bool {
    exists|i: int| 0 <= i < queue.len() && (#[trigger] queue[i]).id == vertex && tags[i] == dist[vertex]
}

// Each entry of the queue was scored under a distance that its vertex had,
// and the vertex has no greater one now.
spec fn queued<F: Fn(usize, usize, usize) -> usize>(
    heuristic: F,
    end: usize,
    dist: Map<usize, usize>,
    queue: Seq<Node>,
    tags: Seq<usize>,
) -> bool {
    &&& tags.len() == queue.len()
    &&& forall|i: int|
        0 <= i < queue.len() ==> {
            &&& dist.contains_key((#[trigger] queue[i]).id)
            &&& dist[queue[i].id] <= tags[i]
            &&& call_ensures(heuristic, (queue[i].id, tags[i], end), queue[i].cost)
        }
}

// Every vertex found waits in the queue, or was expanded and is settled,
// or is being expanded.
spec fn covered(
    graph: Adjacency,
    start: usize,
    end: usize,
    dist: Map<usize, usize>,
    queue: Seq<Node>,
    tags: Seq<usize>,
    visited: Seq<usize>,
    expanding: Option<usize>,
) -> bool {
    &&& forall|v: usize| #[trigger]
        dist.contains_key(v) ==> pending(dist, queue, tags, v) || (visited.contains(v) && settled(
            graph,
            dist,
            v,
        )) || expanding == Some(v)
    &&& forall|i: int|
        0 <= i < visited.len() ==> dist.contains_key(#[trigger] visited[i]) && visited[i] != end
    &&& visited.len() == 0 ==> queue.len() == 1 && queue[0].id == start
    &&& visited.len() > 0 ==> visited[0] == start
}

// The sum, over a list of edges, of the distances of their targets.
spec fn potential(pool: Seq<Edge>, dist: Map<usize, usize>) -> nat
    decreases pool.len(),
{
    if pool.len() == 0 {
        0
    } else {
        potential(pool.drop_last(), dist) + dist_or_beyond(dist, pool.last().to) as nat
    }
}

proof fn potential_drops(pool: Seq<Edge>, dist: Map<usize, usize>, vertex: usize, lower: usize)
    requires
        lower < dist_or_beyond(dist, vertex),
    ensures
        potential(pool, dist.insert(vertex, lower)) <= potential(pool, dist),
        (exists|i: int| 0 <= i < pool.len() && (#[trigger] pool[i]).to == vertex) ==> potential(
            pool,
            dist.insert(vertex, lower),
        ) < potential(pool, dist),
    decreases pool.len(),
{
    if pool.len() > 0 {
        let front = pool.drop_last();
        potential_drops(front, dist, vertex, lower);
        if exists|i: int| 0 <= i < pool.len() && (#[trigger] pool[i]).to == vertex {
            let i = choose|i: int| 0 <= i < pool.len() && (#[trigger] pool[i]).to == vertex;
            if i < front.len() {
                assert(front[i].to == vertex);
            }
        }
    }
}

/// The chain from a vertex with a predecessor is the vertex followed by the
/// chain from its predecessor.
pub proof fn back_shifts(prev: Map<usize, usize>, vertex: usize, steps: nat)
    requires
        prev.contains_key(vertex),
    ensures
        back(prev, vertex, steps + 1) == back(prev, prev[vertex], steps),
    decreases steps,
{
    if steps > 0 {
        back_shifts(prev, vertex, (steps - 1) as nat);
    } else {
        assert(back(prev, vertex, 0) == vertex);
    }
}

/// A vertex without predecessor has an empty chain, which the route
/// without edges follows.
pub proof fn chain_of_root(prev: Map<usize, usize>, start: usize)
    requires
        !prev.contains_key(start),
    ensures
        chain_ends(prev, start),
        route_vertices(start, Seq::<Edge>::empty()) == seq![start] + chain(prev, start).reverse(),
{
    assert(back(prev, start, 0) == start);
    assert(is_chain_len(prev, start, 0));
    chain_len_is_unique(prev, start, 0);
    assert(route_vertices(start, Seq::<Edge>::empty()) =~= seq![start] + chain(
        prev,
        start,
    ).reverse());
}

/// Where a route follows the chain of a vertex's predecessor, the route
/// extended by an edge from the predecessor to the vertex follows the
/// chain of the vertex.
pub proof fn chain_extended(
    graph: Adjacency,
    start: usize,
    prev: Map<usize, usize>,
    vertex: usize,
    edge: Edge,
    shorter: Seq<Edge>,
)
    requires
        prev.contains_key(vertex),
        has_edge(graph, prev[vertex], edge),
        edge.to == vertex,
        is_route(graph, start, shorter),
        route_end(start, shorter) == prev[vertex],
        chain_ends(prev, prev[vertex]),
        route_vertices(start, shorter) == seq![start] + chain(prev, prev[vertex]).reverse(),
    ensures
        is_route(graph, start, shorter.push(edge)),
        route_end(start, shorter.push(edge)) == vertex,
        route_weight(shorter.push(edge)) == route_weight(shorter) + edge.weight,
        chain_ends(prev, vertex),
        route_vertices(start, shorter.push(edge)) == seq![start] + chain(prev, vertex).reverse(),
{
    let before = prev[vertex];
    route_extended(graph, start, shorter, edge);
    let route = shorter.push(edge);
    let tail_len = chain_len(prev, before);
    let steps = choose|steps: nat| !prev.contains_key(back(prev, before, steps));
    chain_len_is_unique(prev, before, steps);
    back_shifts(prev, vertex, tail_len);
    assert forall|k: nat| k < tail_len + 1 implies prev.contains_key(
        #[trigger] back(prev, vertex, k),
    ) by {
        if k > 0 {
            back_shifts(prev, vertex, (k - 1) as nat);
            assert(prev.contains_key(back(prev, before, (k - 1) as nat)));
        } else {
            assert(back(prev, vertex, 0) == vertex);
        }
    }
    assert(is_chain_len(prev, vertex, tail_len + 1));
    chain_len_is_unique(prev, vertex, tail_len + 1);
    let whole = chain(prev, vertex);
    let rest = chain(prev, before);
    assert(whole.len() == rest.len() + 1);
    assert(whole[0] == vertex) by {
        assert(back(prev, vertex, 0) == vertex);
    }
    assert forall|k: int| 1 <= k < whole.len() implies whole[k] == rest[k - 1] by {
        back_shifts(prev, vertex, (k - 1) as nat);
    }
    assert(route_vertices(start, route) =~= seq![start] + whole.reverse()) by {
        let left = route_vertices(start, route);
        let right = seq![start] + whole.reverse();
        let inner = route_vertices(start, shorter);
        assert(inner == seq![start] + rest.reverse());
        assert(inner.len() == shorter.len() + 1);
        assert(rest.reverse().len() == rest.len());
        assert((seq![start] + rest.reverse()).len() == 1 + rest.len());
        assert(whole.reverse().len() == whole.len());
        assert(left.len() == right.len());
        assert forall|k: int| 0 <= k < left.len() implies left[k] == right[k] by {
            if k == 0 {
            } else if k < left.len() - 1 {
                assert(inner[k] == route_source(start, shorter, k));
                assert(inner[k] == rest.reverse()[k - 1]);
                assert(route[k - 1] == shorter[k - 1]);
            } else {
                assert(route[k - 1] == edge);
            }
        }
    }
}

// Whether `lower` was found at a shorter distance than `upper`, or at the
// same distance and earlier.
spec fn found_before(dist: Map<usize, usize>, ledger: Ledger, lower: usize, upper: usize) -> bool {
    dist[lower] < dist[upper] || (dist[lower] == dist[upper] && ledger.stamp[lower]
        < ledger.stamp[upper])
}

// Following the predecessors from a vertex that was found comes to the
// start, along a route that weighs no more than the vertex's distance and
// passes no vertex twice.
proof fn chain_route(
    graph: Adjacency,
    start: usize,
    dist: Map<usize, usize>,
    prev: Map<usize, usize>,
    ledger: Ledger,
    vertex: usize,
) -> (route: Seq<Edge>)
    requires
        sound(graph, start, dist, prev, ledger),
        dist.contains_key(vertex),
    ensures
        is_route(graph, start, route),
        route_end(start, route) == vertex,
        route_weight(route) <= dist[vertex],
        chain_ends(prev, vertex),
        route_vertices(start, route) == seq![start] + chain(prev, vertex).reverse(),
        forall|k: int|
            0 <= k < route.len() ==> found_before(
                dist,
                ledger,
                #[trigger] route_vertices(start, route)[k],
                vertex,
            ),
        route_vertices(start, route).no_duplicates(),
    decreases dist[vertex], ledger.stamp[vertex],
{
    if vertex == start {
        chain_of_root(prev, start);
        Seq::<Edge>::empty()
    } else {
        assert(prev.contains_key(vertex));
        assert(linked(graph, dist, prev, ledger, vertex));
        let before = prev[vertex];
        let shorter = chain_route(graph, start, dist, prev, ledger, before);
        chain_extended(graph, start, prev, vertex, ledger.via[vertex], shorter);
        let route = shorter.push(ledger.via[vertex]);
        let inner = route_vertices(start, shorter);
        let outer = route_vertices(start, route);
        assert(outer =~= inner.push(vertex));
        assert(inner[shorter.len() as int] == before);
        assert forall|k: int| 0 <= k < route.len() implies found_before(
            dist,
            ledger,
            #[trigger] outer[k],
            vertex,
        ) by {
            assert(outer[k] == inner[k]);
            if k < shorter.len() {
                assert(found_before(dist, ledger, inner[k], before));
            }
        }
        assert forall|i: int, j: int| 0 <= i < outer.len() && 0 <= j < outer.len() && i != j implies outer[i]
            != outer[j] by {
            if i < inner.len() && j < inner.len() {
                assert(inner[i] != inner[j]);
            } else if i < inner.len() {
                assert(found_before(dist, ledger, outer[i], vertex));
            } else {
                assert(found_before(dist, ledger, outer[j], vertex));
            }
        }
        route
    }
}

// Once every vertex found is settled, every vertex that a route reaches at
// a weight that a distance can hold has been found, at no greater distance.
proof fn settled_reach(
    graph: Adjacency,
    start: usize,
    dist: Map<usize, usize>,
    route: Seq<Edge>,
)
    requires
        dist.contains_key(start),
        dist[start] == 0,
        forall|v: usize| #[trigger] dist.contains_key(v) ==> settled(graph, dist, v),
        is_route(graph, start, route),
        route_weight(route) <= usize::MAX,
    ensures
        dist.contains_key(route_end(start, route)),
        dist[route_end(start, route)] <= route_weight(route),
    decreases route.len(),
{
    if route.len() > 0 {
        route_shortened(graph, start, route);
        let shorter = route.drop_last();
        settled_reach(graph, start, dist, shorter);
        let from = route_end(start, shorter);
        assert(settled(graph, dist, from));
        assert(has_edge(graph, from, route.last()));
    }
}

// While vertices still wait, a route costs at least the distance of its
// end, or together with the estimate at its end at least as much as the
// cheapest entry of the queue.
proof fn bounded_below(
    graph: Adjacency,
    start: usize,
    end: usize,
    dist: Map<usize, usize>,
    queue: Seq<Node>,
    tags: Seq<usize>,
    estimate: spec_fn(usize) -> int,
    least: usize,
    route: Seq<Edge>,
)
    requires
        dist.contains_key(start),
        dist[start] == 0,
        tags.len() == queue.len(),
        is_consistent(graph, end, estimate),
        forall|v: usize| #[trigger]
            dist.contains_key(v) ==> pending(dist, queue, tags, v) || settled(graph, dist, v),
        forall|i: int|
            0 <= i < queue.len() ==> least <= capped_sum(
                estimate((#[trigger] queue[i]).id),
                tags[i] as int,
            ),
        is_route(graph, start, route),
        route_weight(route) <= usize::MAX,
    ensures
        least <= route_weight(route) + estimate(route_end(start, route)) || (dist.contains_key(
            route_end(start, route),
        ) && dist[route_end(start, route)] <= route_weight(route)),
    decreases route.len(),
{
    if route.len() > 0 {
        route_shortened(graph, start, route);
        let shorter = route.drop_last();
        bounded_below(graph, start, end, dist, queue, tags, estimate, least, shorter);
        let from = route_end(start, shorter);
        assert(has_edge(graph, from, route.last()));
        assert(estimate(from) <= route.last().weight + estimate(route.last().to));
        if least > route_weight(shorter) + estimate(from) {
            if pending(dist, queue, tags, from) {
                let i = choose|i: int|
                    0 <= i < queue.len() && (#[trigger] queue[i]).id == from && tags[i] == dist[from];
                assert(least <= capped_sum(estimate(queue[i].id), tags[i] as int));
            } else {
                assert(settled(graph, dist, from));
            }
        }
    }
}

// Lowering the distance of the target of an edge keeps the books in order.
proof fn relax_keeps_sound(
    graph: Adjacency,
    start: usize,
    dist: Map<usize, usize>,
    prev: Map<usize, usize>,
    ledger: Ledger,
    from: usize,
    edge: Edge,
    total: usize,
)
    requires
        sound(graph, start, dist, prev, ledger),
        dist.contains_key(from),
        has_edge(graph, from, edge),
        total == dist[from] + edge.weight,
        total < dist_or_beyond(dist, edge.to),
    ensures
        edge.to != from,
        edge.to != start,
        sound(
            graph,
            start,
            dist.insert(edge.to, total),
            prev.insert(edge.to, from),
            ledger.relaxed(from, edge),
        ),
{
    let to = edge.to;
    let dist2 = dist.insert(to, total);
    let prev2 = prev.insert(to, from);
    let ledger2 = ledger.relaxed(from, edge);
    assert(known(graph, start, dist, ledger, from));
    route_extended(graph, start, ledger.ways[from], edge);
    assert forall|v: usize| #[trigger] dist2.contains_key(v) implies known(
        graph,
        start,
        dist2,
        ledger2,
        v,
    ) by {
        if v != to {
            assert(dist.contains_key(v));
            assert(known(graph, start, dist, ledger, v));
        }
    }
    assert forall|v: usize| #[trigger] prev2.contains_key(v) implies linked(
        graph,
        dist2,
        prev2,
        ledger2,
        v,
    ) by {
        if v != to {
            assert(prev.contains_key(v));
            assert(linked(graph, dist, prev, ledger, v));
            assert(known(graph, start, dist, ledger, prev[v]));
        }
    }
}

// Queueing the target of a relaxed edge under its new distance keeps the
// queue and the record of what was expanded in order.
proof fn relax_keeps_covered<F: Fn(usize, usize, usize) -> usize>(
    heuristic: F,
    graph: Adjacency,
    start: usize,
    end: usize,
    dist: Map<usize, usize>,
    queue: Seq<Node>,
    tags: Seq<usize>,
    visited: Seq<usize>,
    current: usize,
    edge: Edge,
    total: usize,
    cost: usize,
)
    requires
        queued(heuristic, end, dist, queue, tags),
        covered(graph, start, end, dist, queue, tags, visited, Some(current)),
        dist.contains_key(current),
        visited.len() > 0,
        total == dist[current] + edge.weight,
        total < dist_or_beyond(dist, edge.to),
        call_ensures(heuristic, (edge.to, total, end), cost),
    ensures
        queued(
            heuristic,
            end,
            dist.insert(edge.to, total),
            queue.push(Node { id: edge.to, cost }),
            tags.push(total),
        ),
        covered(
            graph,
            start,
            end,
            dist.insert(edge.to, total),
            queue.push(Node { id: edge.to, cost }),
            tags.push(total),
            visited,
            Some(current),
        ),
        forall|other: Edge|
            dist[current] + other.weight >= dist_or_beyond(dist, other.to) ==> dist[current]
                + other.weight >= dist_or_beyond(dist.insert(edge.to, total), #[trigger] other.to),
{
    let dist2 = dist.insert(edge.to, total);
    let queue2 = queue.push(Node { id: edge.to, cost });
    let tags2 = tags.push(total);
    assert forall|i: int| 0 <= i < queue2.len() implies {
        &&& dist2.contains_key((#[trigger] queue2[i]).id)
        &&& dist2[queue2[i].id] <= tags2[i]
        &&& call_ensures(heuristic, (queue2[i].id, tags2[i], end), queue2[i].cost)
    } by {
        if i < queue.len() {
            assert(queue2[i] == queue[i] && tags2[i] == tags[i]);
        }
    }
    assert forall|v: usize| #[trigger] dist2.contains_key(v) implies pending(dist2, queue2, tags2, v)
        || (visited.contains(v) && settled(graph, dist2, v)) || Some(current) == Some(v) by {
        if v == edge.to {
            assert(queue2[queue.len() as int].id == v && tags2[queue.len() as int] == dist2[v]);
        } else if v != current {
            if pending(dist, queue, tags, v) {
                let k = choose|k: int|
                    0 <= k < queue.len() && (#[trigger] queue[k]).id == v && tags[k] == dist[v];
                assert(queue2[k] == queue[k] && tags2[k] == tags[k]);
            } else {
                assert(settled(graph, dist, v));
                assert forall|other: Edge| #[trigger] has_edge(graph, v, other) implies dist2[v]
                    + other.weight >= dist_or_beyond(dist2, other.to) by {}
            }
        }
    }
    assert forall|i: int| 0 <= i < visited.len() implies dist2.contains_key(#[trigger] visited[i])
        && visited[i] != end by {}
}

/// Best-first search from `start` to `end`. The pending vertex with the
/// lowest score is taken next; the search stops when that vertex is `end`
/// or when no vertex is pending. Every other vertex taken is recorded as
/// visited, and each of its edges that offers its target a shorter
/// distance than the one known lowers that distance, makes the vertex the
/// target's predecessor and queues the target under a new score. A sum
/// that no `usize` holds lowers nothing.
///
/// A route is found exactly when `end` differs from `start` and can be
/// reached at a weight that a `usize` holds, and it passes no vertex
/// twice. With a scoring function that returns the distance walked, or the
/// distance plus an estimate that never overrates the rest of the way, no
/// route to `end` is cheaper than the one found. Where the scoring
/// function is a mathematical function of its arguments, what is recorded
/// and found is the outcome of `search_run` with that function.
pub fn search<F>(graph: &Graph, start: usize, end: usize, heuristic: F) -> (context: Context) where
    F: Fn(usize, usize, usize) -> usize,

    requires
        forall|node: usize, dist: usize, target: usize|
            call_requires(heuristic, (node, dist, target)),
    ensures
        context.start == start,
        context.end == end,
        context.path.is_some() <==> start != end && reachable(graph@, start, end),
        context.path.is_some() ==> {
            &&& is_route_path(graph@, start, end, context.path.unwrap()@)
            &&& is_walk(graph@, context.path.unwrap()@)
            &&& context.path.unwrap()@.first() == start
            &&& context.path.unwrap()@.last() == end
            &&& context.path.unwrap()@.no_duplicates()
        },
        context.path.is_some() && scores_by_distance(heuristic) ==> is_cheapest_path(
            graph@,
            start,
            context.path.unwrap()@,
        ),
        forall|estimate: spec_fn(usize) -> int|
            context.path.is_some() && is_consistent(graph@, end, estimate) && #[trigger]
            scores_by_estimate(heuristic, end, estimate) ==> is_cheapest_path(
                graph@,
                start,
                context.path.unwrap()@,
            ),
        forall|score: Score| #[trigger]
            scores_as(heuristic, score) ==> is_search_outcome(
                graph@,
                score,
                start,
                end,
                context.visited@,
                path_view(context.path),
            ),
        start == end ==> context.visited@.len() == 0,
        start != end ==> context.visited@.len() > 0 && context.visited@[0] == start,
        forall|i: int|
            0 <= i < context.visited@.len() ==> (#[trigger] context.visited@[i]) != end && reachable(
                graph@,
                start,
                context.visited@[i],
            ),
        context.path.is_none() && start != end ==> forall|v: usize|
            reachable(graph@, start, v) ==> context.visited@.contains(v),
{
    let mut context = Context::search(start, end);
    let mut queue = Frontier::new();
    let mut prev: HashMap<usize, usize> = HashMap::new();
    let mut dist: HashMap<usize, usize> = HashMap::new();
    dist.insert(start, 0);
    let first = heuristic(start, 0, end);
    queue.push(Node { id: start, cost: first });
    let ghost mut ledger = Ledger {
        ways: Map::empty().insert(start, Seq::<Edge>::empty()),
        via: Map::empty(),
        stamp: Map::empty().insert(start, 0nat),
        clock: 1,
    };
    let ghost mut tags: Seq<usize> = seq![0usize];
    let ghost mut found = false;
    let ghost mut turns: nat = 0;
    let ghost pool;
    proof {
        tracks_begin(heuristic, graph@, start, end, first);
        graph.vertices_are_finite();
        pool = edge_pool(graph@);
        assert(queue@[0].id == start);
        assert(pending(dist@, queue@, tags, start));
        assert(known(graph@, start, dist@, ledger, start));
    }
    loop
        invariant_except_break
            !found,
            tracks(
                heuristic,
                graph@,
                start,
                end,
                turns,
                SearchState {
                    queue: queue@,
                    dist: dist@,
                    prev: prev@,
                    visited: context.visited@,
                    done: false,
                },
            ),
            queued(heuristic, end, dist@, queue@, tags),
            covered(graph@, start, end, dist@, queue@, tags, context.visited@, None),
        invariant
            forall|node: usize, dist: usize, target: usize|
                call_requires(heuristic, (node, dist, target)),
            forall|from: usize, edge: Edge| has_edge(graph@, from, edge) ==> pool.contains(edge),
            context.start == start,
            context.end == end,
            context.path.is_none(),
            sound(graph@, start, dist@, prev@, ledger),
            forall|i: int|
                0 <= i < context.visited@.len() ==> dist@.contains_key(
                    #[trigger] context.visited@[i],
                ) && context.visited@[i] != end,
            context.visited@.len() > 0 ==> context.visited@[0] == start,
        ensures
            tracks(
                heuristic,
                graph@,
                start,
                end,
                turns,
                SearchState {
                    queue: queue@,
                    dist: dist@,
                    prev: prev@,
                    visited: context.visited@,
                    done: true,
                },
            ),
            found ==> dist@.contains_key(end) && (context.visited@.len() == 0 ==> start == end),
            !found ==> forall|v: usize| #[trigger]
                dist@.contains_key(v) ==> context.visited@.contains(v) && settled(graph@, dist@, v),
            found ==> forall|estimate: spec_fn(usize) -> int|
                is_consistent(graph@, end, estimate) && #[trigger] scores_by_estimate(
                    heuristic,
                    end,
                    estimate,
                ) ==> is_least_distance(graph@, start, end, dist@[end] as int),
        decreases potential(pool, dist@), queue@.len(),
    {
        let ghost queue0 = queue@;
        let ghost tags0 = tags;
        let ghost potential0 = potential(pool, dist@);
        let ghost state0 = SearchState {
            queue: queue@,
            dist: dist@,
            prev: prev@,
            visited: context.visited@,
            done: false,
        };
        let node = match queue.pop() {
            Some(node) => node,
            None => {
                proof {
                    tracks_stop(heuristic, graph@, start, end, turns, state0);
                    turns = turns + 1;
                    assert forall|v: usize| #[trigger] dist@.contains_key(v) implies context.visited@.contains(
                        v,
                    ) && settled(graph@, dist@, v) by {
                        assert(!pending(dist@, queue@, tags, v));
                    }
                }
                break ;
            },
        };
        let current = node.id;
        proof {
            cheapest_is_least(queue0);
            let taken = cheapest(queue0);
            tags = tags0.remove(taken);
            assert(queue0[taken] == node);
            if current == end {
                assert forall|estimate: spec_fn(usize) -> int|
                    is_consistent(graph@, end, estimate) && #[trigger] scores_by_estimate(
                        heuristic,
                        end,
                        estimate,
                    ) implies is_least_distance(graph@, start, end, dist@[end] as int) by {
                    assert forall|i: int| 0 <= i < queue0.len() implies node.cost <= capped_sum(
                        estimate((#[trigger] queue0[i]).id),
                        tags0[i] as int,
                    ) by {
                        assert(queue0[i].cost == capped_sum(estimate(queue0[i].id), tags0[i] as int));
                    }
                    assert forall|v: usize| #[trigger] dist@.contains_key(v) implies pending(
                        dist@,
                        queue0,
                        tags0,
                        v,
                    ) || settled(graph@, dist@, v) by {}
                    assert(node.cost == capped_sum(estimate(end), tags0[taken] as int));
                    assert forall|route: Seq<Edge>|
                        is_route(graph@, start, route) && route_end(start, route) == end && route_weight(
                            route,
                        ) <= usize::MAX implies dist@[end] <= #[trigger] route_weight(route) by {
                        bounded_below(
                            graph@,
                            start,
                            end,
                            dist@,
                            queue0,
                            tags0,
                            estimate,
                            node.cost,
                            route,
                        );
                    }
                }
            }
        }
        if current == end {
            proof {
                found = true;
                tracks_stop(heuristic, graph@, start, end, turns, state0);
                turns = turns + 1;
            }
            break ;
        }
        let ghost visited0 = context.visited@;
        context.visit(current);
        let ghost opened = SearchState {
            queue: queue@,
            dist: dist@,
            prev: prev@,
            visited: context.visited@,
            done: false,
        };
        proof {
            assert(context.visited@[context.visited@.len() - 1] == current);
            assert(queued(heuristic, end, dist@, queue@, tags)) by {
                assert forall|i: int| 0 <= i < queue@.len() implies {
                    &&& dist@.contains_key((#[trigger] queue@[i]).id)
                    &&& dist@[queue@[i].id] <= tags[i]
                    &&& call_ensures(heuristic, (queue@[i].id, tags[i], end), queue@[i].cost)
                } by {
                    let k = if i < cheapest(queue0) {
                        i
                    } else {
                        i + 1
                    };
                    assert(queue@[i] == queue0[k] && tags[i] == tags0[k]);
                }
            }
            assert(covered(
                graph@,
                start,
                end,
                dist@,
                queue@,
                tags,
                context.visited@,
                Some(current),
            )) by {
                let taken = cheapest(queue0);
                let before = visited0;
                assert forall|v: usize| #[trigger] dist@.contains_key(v) implies pending(
                    dist@,
                    queue@,
                    tags,
                    v,
                ) || (context.visited@.contains(v) && settled(graph@, dist@, v)) || Some(current)
                    == Some(v) by {
                    if v != current {
                        if pending(dist@, queue0, tags0, v) {
                            let k = choose|k: int|
                                0 <= k < queue0.len() && (#[trigger] queue0[k]).id == v && tags0[k]
                                    == dist@[v];
                            let i = if k < taken {
                                k
                            } else {
                                k - 1
                            };
                            assert(queue@[i] == queue0[k] && tags[i] == tags0[k]);
                        } else {
                            assert(before.contains(v));
                            let k = choose|k: int| 0 <= k < before.len() && before[k] == v;
                            assert(context.visited@[k] == v);
                        }
                    }
                }
                if before.len() > 0 {
                    assert(context.visited@[0] == before[0]);
                }
            }
        }
        if let Some(edges) = graph.get(&current) {
            let cur_dist = *dist.get(&current).unwrap();
            let mut j: usize = 0;
            proof {
                tracks_edges_begin(heuristic, end, current, cur_dist, edges@, opened);
            }
            while j < edges.len()
                invariant
                    forall|node: usize, dist: usize, target: usize|
                        call_requires(heuristic, (node, dist, target)),
                    tracks_edges(
                        heuristic,
                        end,
                        current,
                        cur_dist,
                        edges@,
                        j as nat,
                        opened,
                        SearchState {
                            queue: queue@,
                            dist: dist@,
                            prev: prev@,
                            visited: context.visited@,
                            done: false,
                        },
                    ),
                    forall|from: usize, edge: Edge|
                        has_edge(graph@, from, edge) ==> pool.contains(edge),
                    context.start == start,
                    context.end == end,
                    context.path.is_none(),
                    j <= edges@.len(),
                    edges@ == edges_of(graph@, current),
                    current != end,
                    dist@.contains_key(current),
                    dist@[current] == cur_dist,
                    context.visited@.len() > 0,
                    context.visited@[context.visited@.len() - 1] == current,
                    sound(graph@, start, dist@, prev@, ledger),
                    queued(heuristic, end, dist@, queue@, tags),
                    covered(
                        graph@,
                        start,
                        end,
                        dist@,
                        queue@,
                        tags,
                        context.visited@,
                        Some(current),
                    ),
                    forall|k: int|
                        0 <= k < j ==> cur_dist + (#[trigger] edges@[k]).weight >= dist_or_beyond(
                            dist@,
                            edges@[k].to,
                        ),
                    potential(pool, dist@) < potential0 || (potential(pool, dist@) == potential0
                        && queue@.len() == queue0.len() - 1),
                decreases edges@.len() - j,
            {
                let edge = edges[j];
                let ghost at = SearchState {
                    queue: queue@,
                    dist: dist@,
                    prev: prev@,
                    visited: context.visited@,
                    done: false,
                };
                let ghost mut scored: usize = 0;
                proof {
                    assert(has_edge(graph@, current, edge));
                }
                match cur_dist.checked_add(edge.weight) {
                    Some(total_dist) => {
                        let shorter = match dist.get(&edge.to) {
                            Some(known_dist) => total_dist < *known_dist,
                            None => true,
                        };
                        if shorter {
                            let ghost dist0 = dist@;
                            let ghost prev0 = prev@;
                            let ghost queue1 = queue@;
                            let ghost tags1 = tags;
                            prev.insert(edge.to, current);
                            dist.insert(edge.to, total_dist);
                            let cost = heuristic(edge.to, total_dist, end);
                            queue.push(Node { id: edge.to, cost });
                            proof {
                                scored = cost;
                                relax_keeps_sound(
                                    graph@,
                                    start,
                                    dist0,
                                    prev0,
                                    ledger,
                                    current,
                                    edge,
                                    total_dist,
                                );
                                ledger = ledger.relaxed(current, edge);
                                tags = tags1.push(total_dist);
                                potential_drops(pool, dist0, edge.to, total_dist);
                                relax_keeps_covered(
                                    heuristic,
                                    graph@,
                                    start,
                                    end,
                                    dist0,
                                    queue1,
                                    tags1,
                                    context.visited@,
                                    current,
                                    edge,
                                    total_dist,
                                    cost,
                                );
                            }
                        }
                    },
                    None => {},
                }
                proof {
                    tracks_edges_step(
                        heuristic,
                        end,
                        current,
                        cur_dist,
                        edges@,
                        j as nat,
                        opened,
                        at,
                        scored,
                    );
                }
                j += 1;
            }
            proof {
                tracks_turn(
                    heuristic,
                    graph@,
                    start,
                    end,
                    turns,
                    state0,
                    SearchState {
                        queue: queue@,
                        dist: dist@,
                        prev: prev@,
                        visited: context.visited@,
                        done: false,
                    },
                );
                assert(settled(graph@, dist@, current)) by {
                    assert forall|edge: Edge| #[trigger] has_edge(graph@, current, edge) implies dist@[current]
                        + edge.weight >= dist_or_beyond(dist@, edge.to) by {
                        let k = choose|k: int| 0 <= k < edges@.len() && edges@[k] == edge;
                        assert(cur_dist + edges@[k].weight >= dist_or_beyond(dist@, edges@[k].to));
                    }
                }
            }
        } else {
            proof {
                tracks_turn(heuristic, graph@, start, end, turns, state0, opened);
                assert(settled(graph@, dist@, current)) by {
                    assert(edges_of(graph@, current) == Seq::<Edge>::empty());
                }
            }
        }
        proof {
            turns = turns + 1;
            assert(context.visited@.contains(current));
        }
    }
    let ghost mut route = Seq::<Edge>::empty();
    proof {
        if dist@.contains_key(end) {
            route = chain_route(graph@, start, dist@, prev@, ledger, end);
            assert(known(graph@, start, dist@, ledger, end));
        } else {
            assert(!prev@.contains_key(end));
            assert(back(prev@, end, 0) == end);
        }
    }
    if let Some(path) = reconstruct(&prev, start, end) {
        proof {
            route_is_walk(graph@, start, route);
            assert(is_route_path(graph@, start, end, path@));
            if scores_by_distance(heuristic) {
                let zero = |vertex: usize| 0int;
                assert(is_consistent(graph@, end, zero));
                assert(scores_by_estimate(heuristic, end, zero));
            }
            assert forall|estimate: spec_fn(usize) -> int|
                is_consistent(graph@, end, estimate) && #[trigger] scores_by_estimate(
                    heuristic,
                    end,
                    estimate,
                ) implies is_cheapest_path(graph@, start, path@) by {
                assert(is_least_distance(graph@, start, end, dist@[end] as int));
                assert forall|other: Seq<Edge>|
                    is_route(graph@, start, other) && route_end(start, other) == route_end(
                        start,
                        route,
                    ) implies route_weight(route) <= route_weight(other) by {
                    if route_weight(other) <= usize::MAX {
                        assert(dist@[end] <= route_weight(other));
                    }
                }
            }
        }
        context.set_path(path);
    }
    proof {
        tracks_end(
            heuristic,
            graph@,
            start,
            end,
            turns,
            SearchState {
                queue: queue@,
                dist: dist@,
                prev: prev@,
                visited: context.visited@,
                done: true,
            },
            path_view(context.path),
        );
        assert(context.path.is_some() <==> start != end && reachable(graph@, start, end)) by {
            if found {
                if start != end {
                    assert(prev@.contains_key(end));
                    assert(known(graph@, start, dist@, ledger, end));
                }
            } else {
                assert(context.visited@.contains(start));
                if reachable(graph@, start, end) {
                    let way = choose|way: Seq<Edge>|
                        is_route(graph@, start, way) && route_end(start, way) == end && route_weight(
                            way,
                        ) <= usize::MAX;
                    settled_reach(graph@, start, dist@, way);
                    assert(context.visited@.contains(end));
                }
            }
        }
        assert forall|i: int| 0 <= i < context.visited@.len() implies (
        #[trigger] context.visited@[i]) != end && reachable(graph@, start, context.visited@[i]) by {
            assert(known(graph@, start, dist@, ledger, context.visited@[i]));
        }
        if context.path.is_none() && start != end {
            assert forall|v: usize| reachable(graph@, start, v) implies context.visited@.contains(
                v,
            ) by {
                let way = choose|way: Seq<Edge>|
                    is_route(graph@, start, way) && route_end(start, way) == v && route_weight(way)
                        <= usize::MAX;
                settled_reach(graph@, start, dist@, way);
            }
        }
        if start != end && !found {
            assert(context.visited@.contains(start));
        }
    }
    context
}

} // verus!
