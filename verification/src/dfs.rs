//! Depth-first search over the graph, without weights.

use crate::graph::{edge_pool, edges_of, has_edge, is_walk, Adjacency, Edge, Graph};
use crate::solver::route::{
    connected, is_route, route_end, route_is_walk, route_shortened, route_vertices,
};
use crate::solver::search::{
    back, chain, chain_ends, chain_extended, chain_of_root, path_view, read_off, reconstruct,
};
use std::collections::{HashMap, HashSet};
use vstd::prelude::*;

verus! {

broadcast use vstd::std_specs::hash::group_hash_axioms;

/// Reads the route to `end` off a predecessor map: the vertices met from
/// `end` on while there is a predecessor, then `start`, in reverse. There
/// is no route when `end` has no predecessor.
pub fn reconstruct_path(prev: &HashMap<usize, usize>, start: usize, end: usize) -> (path: Option<
    Vec<usize>,
>)
    requires
        chain_ends(prev@, end),
    ensures
        path.is_some() == prev@.contains_key(end),
        path.is_some() ==> path.unwrap()@ == seq![start] + chain(prev@, end).reverse(),
{
    reconstruct(prev, start, end)
}

/// What a depth-first search holds between two turns of its loop: the
/// stack of vertices to look at, the vertices visited, the predecessors
/// found, and whether it has stopped.
pub struct DfsState {
    pub stack: Seq<usize>,
    pub visited: Set<usize>,
    pub prev: Map<usize, usize>,
    pub done: bool,
}

/// A depth-first search before its first turn: only `start` is stacked.
pub open spec fn dfs_begun(start: usize) -> DfsState {
    DfsState {
        stack: Seq::<usize>::empty().push(start),
        visited: Set::<usize>::empty(),
        prev: Map::<usize, usize>::empty(),
        done: false,
    }
}

/// The state after the neighbour `neighbor` of `current` was looked at: a
/// neighbour not yet visited is stacked and gets `current` as its
/// predecessor.
pub open spec fn stacked_by(state: DfsState, current: usize, neighbor: usize) -> DfsState {
    if !state.visited.contains(neighbor) {
        DfsState {
            stack: state.stack.push(neighbor),
            visited: state.visited,
            prev: state.prev.insert(neighbor, current),
            done: state.done,
        }
    } else {
        state
    }
}

/// The state after the targets of the first `count` of `edges` were looked
/// at in turn.
pub open spec fn stacked_upto(state: DfsState, current: usize, edges: Seq<Edge>, count: nat) -> DfsState
    decreases count,
{
    if count == 0 {
        state
    } else {
        stacked_by(
            stacked_upto(state, current, edges, (count - 1) as nat),
            current,
            edges[count - 1].to,
        )
    }
}

/// One turn of the loop: the search stops when the stack is empty or when
/// its top is `end`; otherwise the top is taken off and, unless it was
/// visited before, is visited and its neighbours are looked at in turn. A
/// search that has stopped stays as it is.
pub open spec fn dfs_turn(graph: Adjacency, end: usize, state: DfsState) -> DfsState {
    if state.done {
        state
    } else if state.stack.len() == 0 {
        DfsState { stack: state.stack, visited: state.visited, prev: state.prev, done: true }
    } else {
        let current = state.stack.last();
        let rest = state.stack.drop_last();
        if current == end {
            DfsState { stack: rest, visited: state.visited, prev: state.prev, done: true }
        } else if state.visited.contains(current) {
            DfsState { stack: rest, visited: state.visited, prev: state.prev, done: false }
        } else {
            let opened = DfsState {
                stack: rest,
                visited: state.visited.insert(current),
                prev: state.prev,
                done: false,
            };
            if graph.contains_key(current) {
                stacked_upto(opened, current, graph[current], graph[current].len())
            } else {
                opened
            }
        }
    }
}

/// The state of the depth-first search after `turns` turns of its loop.
pub open spec fn dfs_run(graph: Adjacency, start: usize, end: usize, turns: nat) -> DfsState
    decreases turns,
{
    if turns == 0 {
        dfs_begun(start)
    } else {
        dfs_turn(graph, end, dfs_run(graph, start, end, (turns - 1) as nat))
    }
}

/// The state in which the depth-first search stops: its state after a
/// number of turns after which it has stopped.
pub open spec fn dfs_outcome(graph: Adjacency, start: usize, end: usize) -> DfsState {
    dfs_run(graph, start, end, choose|turns: nat| dfs_run(graph, start, end, turns).done)
}

/// A depth-first search that has stopped is not changed by further turns.
pub proof fn stopped_dfs_stays(graph: Adjacency, start: usize, end: usize, turns: nat, later: nat)
    requires
        dfs_run(graph, start, end, turns).done,
        turns <= later,
    ensures
        dfs_run(graph, start, end, later) == dfs_run(graph, start, end, turns),
    decreases later,
{
    if later > turns {
        stopped_dfs_stays(graph, start, end, turns, (later - 1) as nat);
    }
}

/// Whenever the depth-first search has stopped, its state is its outcome:
/// the outcome can be read at any number of turns after which the search
/// is done.
pub proof fn dfs_outcome_at(graph: Adjacency, start: usize, end: usize, turns: nat)
    requires
        dfs_run(graph, start, end, turns).done,
    ensures
        dfs_outcome(graph, start, end) == dfs_run(graph, start, end, turns),
{
    let chosen = choose|turns: nat| dfs_run(graph, start, end, turns).done;
    if chosen <= turns {
        stopped_dfs_stays(graph, start, end, chosen, turns);
    } else {
        stopped_dfs_stays(graph, start, end, turns, chosen);
    }
}

// The run of that many turns has come to `state`.
#[verifier::opaque]
spec fn follows(graph: Adjacency, start: usize, end: usize, turns: nat, state: DfsState) -> bool {
    dfs_run(graph, start, end, turns) == state
}

// Looking at the first `count` neighbours has led from `opened` to `state`.
#[verifier::opaque]
spec fn follows_edges(
    current: usize,
    edges: Seq<Edge>,
    count: nat,
    opened: DfsState,
    state: DfsState,
) -> bool {
    stacked_upto(opened, current, edges, count) == state
}

proof fn follows_begin(graph: Adjacency, start: usize, end: usize)
    ensures
        follows(graph, start, end, 0, dfs_begun(start)),
{
    reveal(follows);
}

proof fn follows_turn(
    graph: Adjacency,
    start: usize,
    end: usize,
    turns: nat,
    state: DfsState,
    after: DfsState,
)
    requires
        follows(graph, start, end, turns, state),
        !state.done,
        ({
            if state.stack.len() == 0 {
                after == DfsState {
                    stack: state.stack,
                    visited: state.visited,
                    prev: state.prev,
                    done: true,
                }
            } else {
                let current = state.stack.last();
                let rest = state.stack.drop_last();
                if current == end {
                    after == DfsState {
                        stack: rest,
                        visited: state.visited,
                        prev: state.prev,
                        done: true,
                    }
                } else if state.visited.contains(current) {
                    after == DfsState {
                        stack: rest,
                        visited: state.visited,
                        prev: state.prev,
                        done: false,
                    }
                } else {
                    let opened = DfsState {
                        stack: rest,
                        visited: state.visited.insert(current),
                        prev: state.prev,
                        done: false,
                    };
                    if graph.contains_key(current) {
                        follows_edges(current, graph[current], graph[current].len(), opened, after)
                    } else {
                        after == opened
                    }
                }
            }
        }),
    ensures
        follows(graph, start, end, turns + 1, after),
{
    reveal(follows);
    reveal(follows_edges);
}

proof fn follows_edges_begin(current: usize, edges: Seq<Edge>, opened: DfsState)
    ensures
        follows_edges(current, edges, 0, opened, opened),
{
    reveal(follows_edges);
}

proof fn follows_edges_step(
    current: usize,
    edges: Seq<Edge>,
    count: nat,
    opened: DfsState,
    state: DfsState,
)
    requires
        follows_edges(current, edges, count, opened, state),
        count < edges.len(),
    ensures
        follows_edges(
            current,
            edges,
            count + 1,
            opened,
            stacked_by(state, current, edges[count as int].to),
        ),
{
    reveal(follows_edges);
}

proof fn follows_end(
    graph: Adjacency,
    start: usize,
    end: usize,
    turns: nat,
    state: DfsState,
    path: Option<Seq<usize>>,
)
    requires
        follows(graph, start, end, turns, state),
        state.done,
        path == read_off(state.prev, start, end),
    ensures
        dfs_outcome(graph, start, end).done,
        path == read_off(dfs_outcome(graph, start, end).prev, start, end),
{
    reveal(follows);
    dfs_outcome_at(graph, start, end, turns);
}

// What a depth-first search knows beyond its maps: when each vertex was
// visited, and the edge by which its predecessor reaches it.
struct Trace {
    order: Map<usize, nat>,
    via: Map<usize, Edge>,
    clock: nat,
}

// The predecessors are visited vertices that reach their vertex by an
// edge and were visited before it, and every visited vertex but the start
// has one.
spec fn traced(
    graph: Adjacency,
    start: usize,
    end: usize,
    prev: Map<usize, usize>,
    visited: Set<usize>,
    trace: Trace,
) -> bool {
    &&& !prev.contains_key(start)
    &&& forall|n: usize| #[trigger]
        prev.contains_key(n) ==> {
            &&& visited.contains(prev[n])
            &&& trace.via.contains_key(n)
            &&& has_edge(graph, prev[n], trace.via[n])
            &&& trace.via[n].to == n
            &&& visited.contains(n) ==> trace.order[prev[n]] < trace.order[n]
        }
    &&& forall|v: usize| #[trigger]
        visited.contains(v) ==> (v == start || prev.contains_key(v)) && v != end && trace.order[v]
            < trace.clock
}

// Following the predecessors from a visited vertex comes to the start,
// along a route over visited vertices that passes none twice.
proof fn chain_walk(
    graph: Adjacency,
    start: usize,
    end: usize,
    prev: Map<usize, usize>,
    visited: Set<usize>,
    trace: Trace,
    vertex: usize,
) -> (route: Seq<Edge>)
    requires
        traced(graph, start, end, prev, visited, trace),
        visited.contains(vertex),
    ensures
        is_route(graph, start, route),
        route_end(start, route) == vertex,
        chain_ends(prev, vertex),
        route_vertices(start, route) == seq![start] + chain(prev, vertex).reverse(),
        forall|k: int|
            0 <= k <= route.len() ==> visited.contains(#[trigger] route_vertices(start, route)[k]),
        forall|k: int|
            0 <= k < route.len() ==> trace.order[#[trigger] route_vertices(start, route)[k]]
                < trace.order[vertex],
        route_vertices(start, route).no_duplicates(),
    decreases trace.order[vertex],
{
    if !prev.contains_key(vertex) {
        chain_of_root(prev, start);
        Seq::<Edge>::empty()
    } else {
        let before = prev[vertex];
        let shorter = chain_walk(graph, start, end, prev, visited, trace, before);
        chain_extended(graph, start, prev, vertex, trace.via[vertex], shorter);
        let route = shorter.push(trace.via[vertex]);
        let inner = route_vertices(start, shorter);
        let outer = route_vertices(start, route);
        assert(outer =~= inner.push(vertex));
        assert(inner[shorter.len() as int] == before);
        assert forall|k: int| 0 <= k < route.len() implies trace.order[#[trigger] outer[k]]
            < trace.order[vertex] by {
            assert(outer[k] == inner[k]);
        }
        assert forall|k: int| 0 <= k <= route.len() implies visited.contains(#[trigger] outer[k]) by {
            if k < route.len() {
                assert(outer[k] == inner[k]);
            }
        }
        route
    }
}

// Following the predecessors from the end, once it has one, comes to the
// start along a route that passes no vertex twice.
proof fn chain_to_end(
    graph: Adjacency,
    start: usize,
    end: usize,
    prev: Map<usize, usize>,
    visited: Set<usize>,
    trace: Trace,
) -> (route: Seq<Edge>)
    requires
        traced(graph, start, end, prev, visited, trace),
        prev.contains_key(end),
    ensures
        is_route(graph, start, route),
        route_end(start, route) == end,
        chain_ends(prev, end),
        route_vertices(start, route) == seq![start] + chain(prev, end).reverse(),
        is_walk(graph, route_vertices(start, route)),
        route_vertices(start, route).first() == start,
        route_vertices(start, route).last() == end,
        route_vertices(start, route).no_duplicates(),
{
    let shorter = chain_walk(graph, start, end, prev, visited, trace, prev[end]);
    chain_extended(graph, start, prev, end, trace.via[end], shorter);
    let route = shorter.push(trace.via[end]);
    route_is_walk(graph, start, route);
    let inner = route_vertices(start, shorter);
    let outer = route_vertices(start, route);
    assert(outer =~= inner.push(end));
    assert forall|i: int, j: int|
        0 <= i < outer.len() && 0 <= j < outer.len() && i != j implies outer[i] != outer[j] by {
        if i < inner.len() && j < inner.len() {
            assert(inner[i] != inner[j]);
        } else if i < inner.len() {
            assert(visited.contains(inner[i]));
        } else {
            assert(visited.contains(inner[j]));
        }
    }
    route
}

// How many of `candidates` are not visited.
spec fn unvisited(candidates: Seq<usize>, visited: Set<usize>) -> nat
    decreases candidates.len(),
{
    if candidates.len() == 0 {
        0
    } else {
        unvisited(candidates.drop_last(), visited) + if visited.contains(candidates.last()) {
            0nat
        } else {
            1nat
        }
    }
}

proof fn unvisited_drops(candidates: Seq<usize>, visited: Set<usize>, vertex: usize)
    requires
        !visited.contains(vertex),
    ensures
        unvisited(candidates, visited.insert(vertex)) <= unvisited(candidates, visited),
        candidates.contains(vertex) ==> unvisited(candidates, visited.insert(vertex)) < unvisited(
            candidates,
            visited,
        ),
    decreases candidates.len(),
{
    if candidates.len() > 0 {
        let front = candidates.drop_last();
        unvisited_drops(front, visited, vertex);
        if candidates.contains(vertex) && candidates.last() != vertex {
            let i = choose|i: int| 0 <= i < candidates.len() && candidates[i] == vertex;
            assert(front[i] == vertex);
        }
    }
}

// Once every edge from a visited vertex leads to a visited vertex, every
// vertex that a route from the visited start reaches is visited.
proof fn closed_reach(graph: Adjacency, start: usize, visited: Set<usize>, route: Seq<Edge>)
    requires
        visited.contains(start),
        forall|v: usize, edge: Edge|
            visited.contains(v) && #[trigger] has_edge(graph, v, edge) ==> visited.contains(edge.to),
        is_route(graph, start, route),
    ensures
        visited.contains(route_end(start, route)),
    decreases route.len(),
{
    if route.len() > 0 {
        route_shortened(graph, start, route);
        closed_reach(graph, start, visited, route.drop_last());
    }
}

/// Depth-first search from `start` to `end`: the vertex found last is
/// taken next, and the search stops when that vertex is `end` or when no
/// vertex is left. A route is found exactly when `end` differs from `start`
/// and some route leads to it; it passes no vertex twice, and it is the
/// route read off the predecessors with which `dfs_run` stops.
pub fn dfs(graph: &Graph, start: usize, end: usize) -> (path: Option<Vec<usize>>)
    ensures
        path.is_some() <==> start != end && connected(graph@, start, end),
        path.is_some() ==> {
            &&& is_walk(graph@, path.unwrap()@)
            &&& path.unwrap()@.first() == start
            &&& path.unwrap()@.last() == end
            &&& path.unwrap()@.no_duplicates()
        },
        dfs_outcome(graph@, start, end).done,
        path_view(path) == read_off(dfs_outcome(graph@, start, end).prev, start, end),
{
    let mut visited: HashSet<usize> = HashSet::new();
    let mut prev: HashMap<usize, usize> = HashMap::new();
    let mut stack: Vec<usize> = Vec::new();
    stack.push(start);
    let ghost mut trace = Trace { order: Map::empty(), via: Map::empty(), clock: 0 };
    let ghost mut found = false;
    let ghost mut turns: nat = 0;
    let ghost pool;
    let ghost candidates: Seq<usize>;
    proof {
        follows_begin(graph@, start, end);
        graph.vertices_are_finite();
        pool = edge_pool(graph@);
        candidates = seq![start] + pool.map_values(|edge: Edge| edge.to);
        assert(candidates[0] == start);
        assert(stack@ =~= seq![start]);
    }
    loop
        invariant_except_break
            !found,
            follows(
                graph@,
                start,
                end,
                turns,
                DfsState { stack: stack@, visited: visited@, prev: prev@, done: false },
            ),
            forall|n: usize| #[trigger]
                prev@.contains_key(n) ==> visited@.contains(n) || stack@.contains(n),
            forall|v: usize, edge: Edge|
                visited@.contains(v) && #[trigger] has_edge(graph@, v, edge) ==> visited@.contains(
                    edge.to,
                ) || stack@.contains(edge.to),
            visited@.contains(start) || stack@ == seq![start],
        invariant
            candidates == seq![start] + pool.map_values(|edge: Edge| edge.to),
            forall|from: usize, edge: Edge| has_edge(graph@, from, edge) ==> pool.contains(edge),
            traced(graph@, start, end, prev@, visited@, trace),
            forall|i: int|
                0 <= i < stack@.len() ==> candidates.contains(#[trigger] stack@[i]) && (stack@[i]
                    == start || prev@.contains_key(stack@[i])),
        ensures
            follows(
                graph@,
                start,
                end,
                turns,
                DfsState { stack: stack@, visited: visited@, prev: prev@, done: true },
            ),
            found ==> start == end || prev@.contains_key(end),
            !found ==> {
                &&& visited@.contains(start)
                &&& forall|n: usize| #[trigger] prev@.contains_key(n) ==> visited@.contains(n)
                &&& forall|v: usize, edge: Edge|
                    visited@.contains(v) && #[trigger] has_edge(graph@, v, edge) ==> visited@.contains(
                        edge.to,
                    )
            },
        decreases unvisited(candidates, visited@), stack@.len(),
    {
        let ghost stack0 = stack@;
        let ghost state0 = DfsState { stack: stack@, visited: visited@, prev: prev@, done: false };
        let current = match stack.pop() {
            Some(current) => current,
            None => {
                proof {
                    follows_turn(
                        graph@,
                        start,
                        end,
                        turns,
                        state0,
                        DfsState { stack: stack@, visited: visited@, prev: prev@, done: true },
                    );
                    turns = turns + 1;
                }
                break ;
            },
        };
        proof {
            assert(stack0[stack0.len() - 1] == current);
            assert forall|y: usize| stack0.contains(y) && y != current implies stack@.contains(y) by {
                let i = choose|i: int| 0 <= i < stack0.len() && stack0[i] == y;
                assert(stack@[i] == y);
            }
            assert forall|i: int| 0 <= i < stack@.len() implies candidates.contains(
                #[trigger] stack@[i],
            ) && (stack@[i] == start || prev@.contains_key(stack@[i])) by {
                assert(stack@[i] == stack0[i]);
            }
        }
        if current == end {
            proof {
                found = true;
                follows_turn(
                    graph@,
                    start,
                    end,
                    turns,
                    state0,
                    DfsState { stack: stack@, visited: visited@, prev: prev@, done: true },
                );
                turns = turns + 1;
            }
            break ;
        }
        if !visited.contains(&current) {
            let ghost visited0 = visited@;
            visited.insert(current);
            let ghost opened = DfsState {
                stack: stack@,
                visited: visited@,
                prev: prev@,
                done: false,
            };
            proof {
                unvisited_drops(candidates, visited0, current);
                trace = Trace {
                    order: trace.order.insert(current, trace.clock),
                    via: trace.via,
                    clock: trace.clock + 1,
                };
                assert(visited0.contains(start) || current == start);
            }
            if let Some(neighbors) = graph.get_neighbors(&current) {
                let ghost edges = graph@[current];
                let mut j: usize = 0;
                proof {
                    follows_edges_begin(current, edges, opened);
                }
                while j < neighbors.len()
                    invariant
                        j <= neighbors@.len(),
                        follows_edges(
                            current,
                            edges,
                            j as nat,
                            opened,
                            DfsState { stack: stack@, visited: visited@, prev: prev@, done: false },
                        ),
                        graph@.contains_key(current),
                        edges == graph@[current],
                        neighbors@ == edges.map_values(|edge: Edge| edge.to),
                        current != end,
                        visited@ == visited0.insert(current),
                        visited@.contains(start),
                        candidates == seq![start] + pool.map_values(|edge: Edge| edge.to),
                        forall|from: usize, edge: Edge|
                            has_edge(graph@, from, edge) ==> pool.contains(edge),
                        traced(graph@, start, end, prev@, visited@, trace),
                        forall|i: int|
                            0 <= i < stack@.len() ==> candidates.contains(#[trigger] stack@[i]) && (
                            stack@[i] == start || prev@.contains_key(stack@[i])),
                        forall|n: usize| #[trigger]
                            prev@.contains_key(n) ==> visited@.contains(n) || stack@.contains(n),
                        forall|v: usize, edge: Edge|
                            visited@.contains(v) && v != current && #[trigger] has_edge(
                                graph@,
                                v,
                                edge,
                            ) ==> visited@.contains(edge.to) || stack@.contains(edge.to),
                        forall|k: int|
                            0 <= k < j ==> visited@.contains((#[trigger] edges[k]).to)
                                || stack@.contains(edges[k].to),
                    decreases neighbors@.len() - j,
                {
                    let neighbor = neighbors[j];
                    let ghost edge = edges[j as int];
                    let ghost at = DfsState {
                        stack: stack@,
                        visited: visited@,
                        prev: prev@,
                        done: false,
                    };
                    proof {
                        follows_edges_step(current, edges, j as nat, opened, at);
                        assert(edges_of(graph@, current) == edges);
                        assert(has_edge(graph@, current, edge));
                        assert(neighbor == edge.to);
                    }
                    if !visited.contains(&neighbor) {
                        let ghost stack1 = stack@;
                        stack.push(neighbor);
                        prev.insert(neighbor, current);
                        proof {
                            trace = Trace {
                                order: trace.order,
                                via: trace.via.insert(neighbor, edge),
                                clock: trace.clock,
                            };
                            assert(stack@[stack1.len() as int] == neighbor);
                            assert forall|y: usize| stack1.contains(y) implies stack@.contains(y) by {
                                let i = choose|i: int| 0 <= i < stack1.len() && stack1[i] == y;
                                assert(stack@[i] == y);
                            }
                            assert(candidates.contains(neighbor)) by {
                                let k = choose|k: int| 0 <= k < pool.len() && pool[k] == edge;
                                assert(candidates[k + 1] == neighbor);
                            }
                            assert forall|i: int| 0 <= i < stack@.len() implies candidates.contains(
                                #[trigger] stack@[i],
                            ) && (stack@[i] == start || prev@.contains_key(stack@[i])) by {
                                if i < stack1.len() {
                                    assert(stack@[i] == stack1[i]);
                                }
                            }
                        }
                    }
                    j += 1;
                }
                proof {
                    follows_turn(
                        graph@,
                        start,
                        end,
                        turns,
                        state0,
                        DfsState { stack: stack@, visited: visited@, prev: prev@, done: false },
                    );
                    assert forall|edge: Edge| #[trigger]
                        has_edge(graph@, current, edge) implies visited@.contains(edge.to)
                        || stack@.contains(edge.to) by {
                        let k = choose|k: int| 0 <= k < edges.len() && edges[k] == edge;
                        assert(visited@.contains(edges[k].to) || stack@.contains(edges[k].to));
                    }
                }
            } else {
                proof {
                    follows_turn(graph@, start, end, turns, state0, opened);
                    assert(edges_of(graph@, current) == Seq::<Edge>::empty());
                }
            }
        } else {
            proof {
                follows_turn(
                    graph@,
                    start,
                    end,
                    turns,
                    state0,
                    DfsState { stack: stack@, visited: visited@, prev: prev@, done: false },
                );
            }
        }
        proof {
            turns = turns + 1;
        }
    }
    let ghost mut route = Seq::<Edge>::empty();
    proof {
        if prev@.contains_key(end) {
            route = chain_to_end(graph@, start, end, prev@, visited@, trace);
        } else {
            assert(back(prev@, end, 0) == end);
            if !found && connected(graph@, start, end) {
                let way = choose|way: Seq<Edge>|
                    is_route(graph@, start, way) && route_end(start, way) == end;
                closed_reach(graph@, start, visited@, way);
            }
        }
    }
    let path = reconstruct_path(&prev, start, end);
    proof {
        follows_end(
            graph@,
            start,
            end,
            turns,
            DfsState { stack: stack@, visited: visited@, prev: prev@, done: true },
            path_view(path),
        );
    }
    path
}

} // verus!
