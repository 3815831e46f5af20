//! A weighted directed graph keyed by vertex id, with edges kept in the order
//! in which they were inserted.

use std::collections::HashMap;
use vstd::prelude::*;

verus! {

broadcast use vstd::std_specs::hash::group_hash_axioms;

/// The way to step on the grid when an edge is followed.
#[derive(Debug, Clone, Copy, PartialEq, Eq, Structural)]
pub enum Direction {
    Up,
    Down,
    Left,
    Right,
}

impl Direction {
    pub open spec fn spec_opposite(&self) -> Direction {
        match *self {
            Direction::Up => Direction::Down,
            Direction::Down => Direction::Up,
            Direction::Left => Direction::Right,
            Direction::Right => Direction::Left,
        }
    }

    /// The direction that undoes a step in this one.
    #[verifier::when_used_as_spec(spec_opposite)]
    pub fn opposite(&self) -> (flipped: Direction)
        ensures
            flipped == self.spec_opposite(),
    {
        match self {
            Direction::Up => Direction::Down,
            Direction::Down => Direction::Up,
            Direction::Left => Direction::Right,
            Direction::Right => Direction::Left,
        }
    }

    /// Turning around twice gives the direction one started with.
    pub proof fn opposite_is_involution(self)
        ensures
            self.spec_opposite().spec_opposite() == self,
            self.spec_opposite() != self,
    {
    }
}

/// One outgoing edge: where it leads, how many unit steps it folds, and the
/// way to step along it.
#[derive(Debug, Clone, Copy, PartialEq, Eq, Structural)]
pub struct Edge {
    pub to: usize,
    pub weight: usize,
    pub direction: Direction,
}

/// Adjacency lists as a mathematical map from vertex id to outgoing edges.
pub type Adjacency = Map<usize, Seq<Edge>>;

/// The outgoing edges of `vertex`; a vertex that is not a key has none.
pub open spec fn edges_of(adjacency: Adjacency, vertex: usize) -> Seq<Edge> {
    if adjacency.contains_key(vertex) {
        adjacency[vertex]
    } else {
        Seq::empty()
    }
}

/// `adjacency` with `edge` appended to the list of `from`.
pub open spec fn with_edge(adjacency: Adjacency, from: usize, edge: Edge) -> Adjacency {
    adjacency.insert(from, edges_of(adjacency, from).push(edge))
}

/// Whether `edge` is among the outgoing edges of `from`.
pub open spec fn has_edge(adjacency: Adjacency, from: usize, edge: Edge) -> bool {
    edges_of(adjacency, from).contains(edge)
}

/// Whether no edge occurs twice in the list of any vertex.
pub open spec fn edges_are_distinct(adjacency: Adjacency) -> bool {
    forall|vertex: usize| #[trigger] edges_of(adjacency, vertex).no_duplicates()
}

/// After an insertion the graph holds the edges it held and the new one.
pub proof fn edges_after_insert(adjacency: Adjacency, from: usize, edge: Edge)
    ensures
        forall|vertex: usize, other: Edge| #[trigger]
            has_edge(with_edge(adjacency, from, edge), vertex, other) <==> has_edge(
                adjacency,
                vertex,
                other,
            ) || (vertex == from && other == edge),
        edges_are_distinct(adjacency) && !has_edge(adjacency, from, edge) ==> edges_are_distinct(
            with_edge(adjacency, from, edge),
        ),
{
    let after = with_edge(adjacency, from, edge);
    let before_list = edges_of(adjacency, from);
    let after_list = before_list.push(edge);
    assert(edges_of(after, from) == after_list);
    assert forall|vertex: usize, other: Edge| #[trigger]
        has_edge(after, vertex, other) <==> has_edge(adjacency, vertex, other) || (vertex == from
            && other == edge) by {
        if vertex == from {
            if before_list.contains(other) {
                let i = choose|i: int| 0 <= i < before_list.len() && before_list[i] == other;
                assert(after_list[i] == other);
            }
            assert(after_list[before_list.len() as int] == edge);
            if after_list.contains(other) {
                let i = choose|i: int| 0 <= i < after_list.len() && after_list[i] == other;
                if i < before_list.len() {
                    assert(before_list[i] == other);
                }
            }
        } else {
            assert(edges_of(after, vertex) == edges_of(adjacency, vertex));
        }
    }
    if edges_are_distinct(adjacency) && !has_edge(adjacency, from, edge) {
        assert forall|vertex: usize| #[trigger] edges_of(after, vertex).no_duplicates() by {
            if vertex == from {
                assert(before_list.no_duplicates());
                assert forall|i: int, j: int|
                    0 <= i < after_list.len() && 0 <= j < after_list.len() && i != j implies after_list[i]
                    != after_list[j] by {
                    if i < before_list.len() && j < before_list.len() {
                        assert(before_list[i] != before_list[j]);
                    } else if i < before_list.len() {
                        assert(before_list.contains(before_list[i]));
                    } else {
                        assert(before_list.contains(before_list[j]));
                    }
                }
            } else {
                assert(edges_of(after, vertex) == edges_of(adjacency, vertex));
            }
        }
    }
}

/// The index of the first edge in `edges` that leads to `to`, or the length
/// of `edges` if none does.
pub open spec fn first_edge_to(edges: Seq<Edge>, to: usize) -> int
    decreases edges.len(),
{
    if edges.len() == 0 {
        0
    } else if edges[0].to == to {
        0
    } else {
        1 + first_edge_to(edges.subrange(1, edges.len() as int), to)
    }
}

/// `first_edge_to` names the least index of an edge to `to`.
pub proof fn first_edge_to_is_least(edges: Seq<Edge>, to: usize)
    ensures
        0 <= first_edge_to(edges, to) <= edges.len(),
        first_edge_to(edges, to) < edges.len() ==> edges[first_edge_to(edges, to)].to == to,
        forall|i: int| 0 <= i < first_edge_to(edges, to) ==> (#[trigger] edges[i]).to != to,
    decreases edges.len(),
{
    if edges.len() != 0 && edges[0].to != to {
        let rest = edges.subrange(1, edges.len() as int);
        first_edge_to_is_least(rest, to);
        assert forall|i: int| 0 <= i < first_edge_to(edges, to) implies (#[trigger] edges[i]).to
            != to by {
            if i > 0 {
                assert(edges[i] == rest[i - 1]);
            }
        }
    }
}

/// Whether some edge leads from `from` to `to`.
pub open spec fn connects(adjacency: Adjacency, from: usize, to: usize) -> bool {
    first_edge_to(edges_of(adjacency, from), to) < edges_of(adjacency, from).len()
}

/// The first edge from `from` to `to`, the one that `Graph::get_edge` finds.
pub open spec fn link_between(adjacency: Adjacency, from: usize, to: usize) -> Edge
    recommends
        connects(adjacency, from, to),
{
    edges_of(adjacency, from)[first_edge_to(edges_of(adjacency, from), to)]
}

/// Whether each vertex of `path` but the last has an edge to the next one.
pub open spec fn is_walk(adjacency: Adjacency, path: Seq<usize>) -> bool {
    forall|i: int| 0 <= i < path.len() - 1 ==> connects(adjacency, #[trigger] path[i], path[i + 1])
}

/// The weight of a walk: the sum of the weights of the first edges from
/// each vertex to the next.
pub open spec fn walk_weight(adjacency: Adjacency, path: Seq<usize>) -> nat
    decreases path.len(),
{
    if path.len() <= 1 {
        0
    } else {
        walk_weight(adjacency, path.drop_last()) + link_between(
            adjacency,
            path[path.len() - 2],
            path[path.len() - 1],
        ).weight as nat
    }
}

/// A vertex is connected to another exactly when one of its edges leads
/// there, and the first such edge is one of its edges.
pub proof fn connects_iff_edge(adjacency: Adjacency, from: usize, to: usize)
    ensures
        connects(adjacency, from, to) <==> exists|edge: Edge|
            has_edge(adjacency, from, edge) && edge.to == to,
        connects(adjacency, from, to) ==> has_edge(adjacency, from, link_between(adjacency, from, to))
            && link_between(adjacency, from, to).to == to,
{
    let edges = edges_of(adjacency, from);
    first_edge_to_is_least(edges, to);
    let first = first_edge_to(edges, to);
    if first < edges.len() {
        assert(has_edge(adjacency, from, edges[first]) && edges[first].to == to);
    }
    if exists|edge: Edge| has_edge(adjacency, from, edge) && edge.to == to {
        let edge = choose|edge: Edge| has_edge(adjacency, from, edge) && edge.to == to;
        let i = choose|i: int| 0 <= i < edges.len() && edges[i] == edge;
        assert(edges[i].to == to);
    }
}

/// The edges of a graph with finitely many vertices can be listed: every
/// edge of the graph occurs in the list.
pub proof fn edge_pool(adjacency: Adjacency) -> (pool: Seq<Edge>)
    requires
        adjacency.dom().finite(),
    ensures
        forall|from: usize, edge: Edge| has_edge(adjacency, from, edge) ==> pool.contains(edge),
    decreases adjacency.dom().len(),
{
    if adjacency.dom().len() == 0 {
        assert forall|from: usize, edge: Edge| has_edge(adjacency, from, edge) implies false by {
            assert(adjacency.dom().contains(from));
        }
        Seq::empty()
    } else {
        let key = adjacency.dom().choose();
        let rest = adjacency.remove(key);
        let listed = edge_pool(rest);
        let pool = listed + adjacency[key];
        assert forall|from: usize, edge: Edge| has_edge(adjacency, from, edge) implies pool.contains(
            edge,
        ) by {
            if from == key {
                let i = choose|i: int| 0 <= i < adjacency[key].len() && adjacency[key][i] == edge;
                assert(pool[listed.len() + i] == edge);
            } else {
                assert(edges_of(rest, from) == edges_of(adjacency, from));
                assert(has_edge(rest, from, edge));
                let i = choose|i: int| 0 <= i < listed.len() && listed[i] == edge;
                assert(pool[i] == edge);
            }
        }
        pool
    }
}

/// The places at which a graph holds an edge: a vertex with a list, and a
/// position in that list. There are as many as the graph has edges.
pub open spec fn edge_places(adjacency: Adjacency) -> Set<(usize, int)> {
    Set::new(
        |place: (usize, int)|
            adjacency.contains_key(place.0) && 0 <= place.1 < adjacency[place.0].len(),
    )
}

/// A number as a counter holds it: capped at `usize::MAX`.
pub open spec fn capped(count: nat) -> usize {
    if count < usize::MAX {
        count as usize
    } else {
        usize::MAX
    }
}

/// An insertion adds one place to the graph, and one key if `from` had no
/// list.
pub proof fn places_after_insert(adjacency: Adjacency, from: usize, edge: Edge)
    requires
        adjacency.dom().finite(),
        edge_places(adjacency).finite(),
    ensures
        with_edge(adjacency, from, edge).dom().finite(),
        edge_places(with_edge(adjacency, from, edge)).finite(),
        with_edge(adjacency, from, edge).dom().len() == adjacency.dom().len() + if adjacency.contains_key(
            from,
        ) {
            0int
        } else {
            1int
        },
        edge_places(with_edge(adjacency, from, edge)).len() == edge_places(adjacency).len() + 1,
{
    let after = with_edge(adjacency, from, edge);
    let place = (from, edges_of(adjacency, from).len() as int);
    assert(after.dom() =~= adjacency.dom().insert(from));
    assert(edge_places(after) =~= edge_places(adjacency).insert(place));
    assert(!edge_places(adjacency).contains(place));
}

/// A counter after one more insertion: it stops at `usize::MAX`.
pub open spec fn counted(count: usize) -> usize {
    if count < usize::MAX {
        (count + 1) as usize
    } else {
        count
    }
}

/// A directed graph: for each vertex the edges that leave it, in the order
/// in which they were inserted, and two counters kept for reporting.
#[derive(Debug)]
pub struct Graph {
    vertex_count: usize,
    edge_count: usize,
    graph: HashMap<usize, Vec<Edge>>,
}

impl View for Graph {
    type V = Adjacency;

    closed spec fn view(&self) -> Adjacency {
        Map::new(|vertex: usize| self.graph@.contains_key(vertex), |vertex: usize| self.graph@[vertex]@)
    }
}

impl Graph {
    pub closed spec fn spec_vertex_count(&self) -> usize {
        self.vertex_count
    }

    pub closed spec fn spec_edge_count(&self) -> usize {
        self.edge_count
    }

    /// Whether the counters count what the graph holds: the vertex counter
    /// the keys, the edge counter the edges, each capped at `usize::MAX`;
    /// and whether every key has at least one edge. This holds of the empty
    /// graph and is kept by every insertion.
    pub open spec fn tallied(&self) -> bool {
        &&& self@.dom().finite()
        &&& edge_places(self@).finite()
        &&& self.spec_vertex_count() == capped(self@.dom().len())
        &&& self.spec_edge_count() == capped(edge_places(self@).len())
        &&& forall|vertex: usize| #[trigger] self@.contains_key(vertex) ==> self@[vertex].len() > 0
    }

    /// A graph has finitely many vertices.
    pub proof fn vertices_are_finite(&self)
        ensures
            self@.dom().finite(),
    {
        assert(self@.dom() =~= self.graph@.dom());
    }

    /// A graph without vertices or edges.
    pub fn new() -> (graph: Graph)
        ensures
            graph@ == Map::<usize, Seq<Edge>>::empty(),
            graph.spec_vertex_count() == 0,
            graph.spec_edge_count() == 0,
            graph.tallied(),
    {
        let graph = Graph { vertex_count: 0, edge_count: 0, graph: HashMap::new() };
        assert(graph@ =~= Map::<usize, Seq<Edge>>::empty());
        assert(edge_places(graph@) =~= Set::<(usize, int)>::empty());
        graph
    }

    /// Appends one edge to the list of `from`. The edge counter grows by one;
    /// the vertex counter grows only when `from` had no list before. Both
    /// stop at `usize::MAX`.
    pub fn add_directed_edge(&mut self, from: usize, to: usize, weight: usize, direction: Direction)
        ensures
            final(self)@ == with_edge(old(self)@, from, Edge { to, weight, direction }),
            final(self).spec_edge_count() == counted(old(self).spec_edge_count()),
            final(self).spec_vertex_count() == if old(self)@.contains_key(from) {
                old(self).spec_vertex_count()
            } else {
                counted(old(self).spec_vertex_count())
            },
            old(self).tallied() ==> final(self).tallied(),
    {
        proof {
            if self.tallied() {
                places_after_insert(self@, from, Edge { to, weight, direction });
            }
        }
        let mut edges = match self.graph.remove(&from) {
            Some(edges) => edges,
            None => {
                self.vertex_count = self.vertex_count.saturating_add(1);
                Vec::new()
            },
        };
        self.edge_count = self.edge_count.saturating_add(1);
        edges.push(Edge { to, weight, direction });
        self.graph.insert(from, edges);
        assert(final(self)@ =~= with_edge(old(self)@, from, Edge { to, weight, direction }));
    }

    /// Inserts the edge from `from` to `to` and, after it, the edge back with
    /// the opposite direction and the same weight.
    pub fn add_edge(&mut self, from: usize, to: usize, weight: usize, direction: Direction)
        ensures
            final(self)@ == with_edge(
                with_edge(old(self)@, from, Edge { to, weight, direction }),
                to,
                Edge { to: from, weight, direction: direction.spec_opposite() },
            ),
            final(self).spec_edge_count() == counted(counted(old(self).spec_edge_count())),
            final(self).spec_vertex_count() == {
                let seen = if old(self)@.contains_key(from) {
                    old(self).spec_vertex_count()
                } else {
                    counted(old(self).spec_vertex_count())
                };
                if to == from || old(self)@.contains_key(to) {
                    seen
                } else {
                    counted(seen)
                }
            },
            old(self).tallied() ==> final(self).tallied(),
    {
        self.add_directed_edge(from, to, weight, direction);
        self.add_directed_edge(to, from, weight, direction.opposite());
    }

    /// The edge list of `key`, absent for a vertex that never had an edge
    /// inserted from it.
    pub fn get(&self, key: &usize) -> (edges: Option<&Vec<Edge>>)
        ensures
            edges.is_some() == self@.contains_key(*key),
            edges.is_some() ==> edges.unwrap()@ == self@[*key],
    {
        self.graph.get(key)
    }

    /// The targets of the edges of `key`, in insertion order.
    pub fn get_neighbors(&self, key: &usize) -> (neighbors: Option<Vec<usize>>)
        ensures
            neighbors.is_some() == self@.contains_key(*key),
            neighbors.is_some() ==> neighbors.unwrap()@ == self@[*key].map_values(|edge: Edge| edge.to),
    {
        match self.graph.get(key) {
            Some(edges) => {
                let mut neighbors: Vec<usize> = Vec::new();
                let mut i: usize = 0;
                while i < edges.len()
                    invariant
                        i <= edges.len(),
                        neighbors@ == edges@.subrange(0, i as int).map_values(|edge: Edge| edge.to),
                    decreases edges.len() - i,
                {
                    neighbors.push(edges[i].to);
                    i += 1;
                    assert(neighbors@ =~= edges@.subrange(0, i as int).map_values(
                        |edge: Edge| edge.to,
                    ));
                }
                assert(edges@.subrange(0, i as int) =~= edges@);
                Some(neighbors)
            },
            None => None,
        }
    }

    /// The first edge in the list of `from` that leads to `to`.
    pub fn get_edge(&self, from: usize, to: usize) -> (edge: Option<&Edge>)
        ensures
            edge.is_some() == (first_edge_to(edges_of(self@, from), to) < edges_of(self@, from).len()),
            edge.is_some() ==> *edge.unwrap() == edges_of(self@, from)[first_edge_to(
                edges_of(self@, from),
                to,
            )],
    {
        match self.graph.get(&from) {
            Some(edges) => {
                proof {
                    first_edge_to_is_least(edges@, to);
                }
                let mut i: usize = 0;
                while i < edges.len()
                    invariant
                        i <= edges.len(),
                        edges@ == edges_of(self@, from),
                        0 <= first_edge_to(edges@, to) <= edges@.len(),
                        first_edge_to(edges@, to) < edges@.len() ==> edges@[first_edge_to(
                            edges@,
                            to,
                        )].to == to,
                        forall|j: int|
                            0 <= j < first_edge_to(edges@, to) ==> (#[trigger] edges@[j]).to != to,
                        forall|j: int| 0 <= j < i ==> (#[trigger] edges@[j]).to != to,
                    decreases edges.len() - i,
                {
                    if edges[i].to == to {
                        return Some(&edges[i]);
                    }
                    i += 1;
                }
                None
            },
            None => None,
        }
    }

    /// How many vertices have had an edge inserted from them, up to
    /// `usize::MAX`.
    #[verifier::when_used_as_spec(spec_vertex_count)]
    pub fn vertex_count(&self) -> (count: usize)
        ensures
            count == self.spec_vertex_count(),
    {
        self.vertex_count
    }

    /// How many edges have been inserted, up to `usize::MAX`.
    #[verifier::when_used_as_spec(spec_edge_count)]
    pub fn edge_count(&self) -> (count: usize)
        ensures
            count == self.spec_edge_count(),
    {
        self.edge_count
    }
}

} // verus!
