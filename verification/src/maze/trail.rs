//! Expanding a route over the sparse graph into the trail of cells it
//! crosses.

use crate::graph::{
    connects, connects_iff_edge, has_edge, is_walk, link_between, walk_weight, Adjacency,
};
use crate::graph::{Direction, Edge, Graph};
use crate::maze::Maze;
use vstd::prelude::*;

verus! {

impl Maze {
    /// How many steps in `direction` lie between the cells `from` and `to`.
    pub open spec fn span(&self, from: usize, to: usize, direction: Direction) -> int {
        match direction {
            Direction::Right => self.column_of(to as int) - self.column_of(from as int),
            Direction::Left => self.column_of(from as int) - self.column_of(to as int),
            Direction::Down => self.row_of(to as int) - self.row_of(from as int),
            Direction::Up => self.row_of(from as int) - self.row_of(to as int),
        }
    }

    /// Whether the cell `to` is reached from the cell `from` by one or more
    /// steps in `direction`.
    pub open spec fn lies_toward(&self, from: usize, to: usize, direction: Direction) -> bool {
        &&& from < self.area()
        &&& to < self.area()
        &&& self.span(from, to, direction) > 0
        &&& match direction {
            Direction::Right | Direction::Left => self.row_of(from as int) == self.row_of(to as int),
            Direction::Down | Direction::Up => self.column_of(from as int) == self.column_of(
                to as int,
            ),
        }
    }

    /// The id of the cell `steps` steps in `direction` from the cell `from`.
    pub open spec fn step_from(&self, from: usize, direction: Direction, steps: int) -> int {
        let x = self.column_of(from as int);
        let y = self.row_of(from as int);
        match direction {
            Direction::Right => self.id_of(x + steps, y),
            Direction::Left => self.id_of(x - steps, y),
            Direction::Down => self.id_of(x, y + steps),
            Direction::Up => self.id_of(x, y - steps),
        }
    }

    /// Whether the first edge from `from` to `to` exists and points at `to`.
    pub open spec fn leads(&self, graph: Adjacency, from: usize, to: usize) -> bool {
        connects(graph, from, to) && self.lies_toward(
            from,
            to,
            link_between(graph, from, to).direction,
        )
    }

    /// Whether a route can be expanded: from each vertex but the last, the
    /// first edge to the next vertex exists and points at it.
    pub open spec fn routable(&self, graph: Adjacency, path: Seq<usize>) -> bool {
        forall|i: int| 0 <= i < path.len() - 1 ==> self.leads(graph, #[trigger] path[i], path[i + 1])
    }

    /// The cells walked from `from` to `to`, cell by cell, without `from`
    /// and with `to`.
    pub open spec fn leg(&self, graph: Adjacency, from: usize, to: usize) -> Seq<usize> {
        let direction = link_between(graph, from, to).direction;
        Seq::new(
            self.span(from, to, direction) as nat,
            |i: int| self.step_from(from, direction, i + 1) as usize,
        )
    }

    /// The trail of a route: its first vertex, then the cells of each leg.
    pub open spec fn trail(&self, graph: Adjacency, path: Seq<usize>) -> Seq<usize>
        decreases path.len(),
    {
        if path.len() == 0 {
            Seq::empty()
        } else if path.len() == 1 {
            seq![path[0]]
        } else {
            self.trail(graph, path.drop_last()) + self.leg(
                graph,
                path[path.len() - 2],
                path[path.len() - 1],
            )
        }
    }

    /// Whether two cells of the grid are neighbours: one step apart along a
    /// row or a column.
    pub open spec fn adjacent(&self, a: usize, b: usize) -> bool {
        let dx = self.column_of(a as int) - self.column_of(b as int);
        let dy = self.row_of(a as int) - self.row_of(b as int);
        a < self.area() && b < self.area() && (if dx < 0 {
            -dx
        } else {
            dx
        }) + (if dy < 0 {
            -dy
        } else {
            dy
        }) == 1
    }

    /// The cells on the way from `from` towards `to` lie in the grid, the
    /// last one is `to`, and each is the neighbour of the one before.
    pub proof fn leg_is_connected(&self, from: usize, to: usize, direction: Direction)
        requires
            self.wf(),
            self.lies_toward(from, to, direction),
        ensures
            self.step_from(from, direction, 0) == from,
            self.step_from(from, direction, self.span(from, to, direction)) == to,
            forall|k: int|
                0 <= k <= self.span(from, to, direction) ==> 0 <= #[trigger] self.step_from(
                    from,
                    direction,
                    k,
                ) < self.area(),
            forall|k: int|
                0 <= k < self.span(from, to, direction) ==> self.adjacent(
                    #[trigger] self.step_from(from, direction, k) as usize,
                    self.step_from(from, direction, k + 1) as usize,
                ),
    {
        self.grid_is_bounded();
        self.id_of_coord(from as int);
        self.id_of_coord(to as int);
        let n = self.span(from, to, direction);
        let x = self.column_of(from as int);
        let y = self.row_of(from as int);
        assert forall|k: int| 0 <= k <= n implies 0 <= #[trigger] self.step_from(from, direction, k)
            < self.area() && self.column_of(self.step_from(from, direction, k)) == (match direction {
            Direction::Right => x + k,
            Direction::Left => x - k,
            _ => x,
        }) && self.row_of(self.step_from(from, direction, k)) == (match direction {
            Direction::Down => y + k,
            Direction::Up => y - k,
            _ => y,
        }) by {
            match direction {
                Direction::Right => {
                    self.id_in_area(x + k, y);
                    self.coord_of_id(x + k, y);
                },
                Direction::Left => {
                    self.id_in_area(x - k, y);
                    self.coord_of_id(x - k, y);
                },
                Direction::Down => {
                    self.id_in_area(x, y + k);
                    self.coord_of_id(x, y + k);
                },
                Direction::Up => {
                    self.id_in_area(x, y - k);
                    self.coord_of_id(x, y - k);
                },
            }
        }
        assert forall|k: int| 0 <= k < n implies self.adjacent(
            #[trigger] self.step_from(from, direction, k) as usize,
            self.step_from(from, direction, k + 1) as usize,
        ) by {
            assert(0 <= self.step_from(from, direction, k + 1) < self.area());
        }
    }

    /// A route and its trail begin and end alike, and each cell of the
    /// trail is a neighbour of the one before it.
    pub proof fn trail_is_connected(&self, graph: Adjacency, path: Seq<usize>)
        requires
            self.wf(),
            path.len() > 0,
            self.routable(graph, path),
        ensures
            self.trail(graph, path).len() >= 1,
            self.trail(graph, path).first() == path.first(),
            self.trail(graph, path).last() == path.last(),
            forall|i: int|
                0 <= i < self.trail(graph, path).len() - 1 ==> self.adjacent(
                    #[trigger] self.trail(graph, path)[i],
                    self.trail(graph, path)[i + 1],
                ),
            path[0] < self.area() ==> forall|i: int|
                0 <= i < self.trail(graph, path).len() ==> #[trigger] self.trail(graph, path)[i]
                    < self.area(),
        decreases path.len(),
    {
        if path.len() > 1 {
            let before = path.drop_last();
            let from = path[path.len() - 2];
            let to = path[path.len() - 1];
            assert forall|i: int| 0 <= i < before.len() - 1 implies self.leads(
                graph,
                #[trigger] before[i],
                before[i + 1],
            ) by {
                assert(self.leads(graph, path[i], path[i + 1]));
            }
            self.trail_is_connected(graph, before);
            assert(self.leads(graph, path[path.len() - 2], path[path.len() - 2 + 1]));
            let direction = link_between(graph, from, to).direction;
            self.leg_is_connected(from, to, direction);
            let head = self.trail(graph, before);
            let leg = self.leg(graph, from, to);
            let whole = self.trail(graph, path);
            assert(whole == head + leg);
            assert(head.last() == from);
            assert(before[0] == path[0]);
            if path[0] < self.area() {
                assert forall|i: int| 0 <= i < whole.len() implies #[trigger] whole[i]
                    < self.area() by {
                    if i < head.len() {
                        assert(whole[i] == head[i]);
                    } else {
                        let k = i - head.len();
                        assert(whole[i] == leg[k]);
                        assert(0 <= self.step_from(from, direction, k + 1) < self.area());
                    }
                }
            }
            assert forall|i: int| 0 <= i < whole.len() - 1 implies self.adjacent(
                #[trigger] whole[i],
                whole[i + 1],
            ) by {
                if i < head.len() - 1 {
                    assert(self.adjacent(head[i], head[i + 1]));
                } else {
                    let k = i - (head.len() - 1);
                    assert(self.adjacent(
                        self.step_from(from, direction, k) as usize,
                        self.step_from(from, direction, k + 1) as usize,
                    ));
                    if k > 0 {
                        assert(whole[i] == leg[k - 1]);
                    }
                    assert(whole[i + 1] == leg[k]);
                }
            }
        }
    }

    /// Every edge of a link points from the vertex it leaves at the vertex
    /// it leads to, in a maze of two rows or more.
    pub proof fn links_lead_straight(&self, from: usize, edge: Edge)
        requires
            self.wf(),
            self.spec_height() >= 2,
            self.is_link(from, edge),
        ensures
            self.lies_toward(from, edge.to, edge.direction),
    {
        let near = Self::near_end(from, edge);
        let far = Self::far_end(from, edge);
        let bx = self.column_of(far as int);
        let by = self.row_of(far as int);
        self.left_anchor_is_junction(bx, by);
        self.anchor_after_is_vertex(bx, by - 1);
        self.anchor_after_is_vertex(bx, self.last_anchor_row());
    }

    /// In a graph that holds only links of this maze, every walk can be
    /// expanded.
    pub proof fn walk_is_routable(&self, graph: Adjacency, path: Seq<usize>)
        requires
            self.wf(),
            self.spec_height() >= 2,
            forall|from: usize, edge: Edge| #[trigger]
                has_edge(graph, from, edge) ==> self.is_link(from, edge),
            is_walk(graph, path),
        ensures
            self.routable(graph, path),
    {
        assert forall|i: int| 0 <= i < path.len() - 1 implies self.leads(
            graph,
            #[trigger] path[i],
            path[i + 1],
        ) by {
            connects_iff_edge(graph, path[i], path[i + 1]);
            let edge = link_between(graph, path[i], path[i + 1]);
            assert(has_edge(graph, path[i], edge));
            self.links_lead_straight(path[i], edge);
        }
    }

    /// Along a link, every cell from one vertex to the other is passable,
    /// and the weight of its edges is the number of steps between them.
    pub proof fn link_is_open(&self, from: usize, edge: Edge)
        requires
            self.wf(),
            self.spec_height() >= 2,
            self.is_link(from, edge),
        ensures
            edge.weight == self.span(from, edge.to, edge.direction),
            forall|k: int|
                0 <= k <= self.span(from, edge.to, edge.direction) ==> self.passable(
                    self.column_of(#[trigger] self.step_from(from, edge.direction, k)),
                    self.row_of(self.step_from(from, edge.direction, k)),
                ),
    {
        self.grid_is_bounded();
        self.links_lead_straight(from, edge);
        self.leg_is_connected(from, edge.to, edge.direction);
        let near = Self::near_end(from, edge);
        let far = Self::far_end(from, edge);
        let ax = self.column_of(near as int);
        let ay = self.row_of(near as int);
        let bx = self.column_of(far as int);
        let by = self.row_of(far as int);
        self.id_of_coord(near as int);
        self.id_of_coord(far as int);
        self.left_run_is_open(bx, by);
        self.left_anchor_is_junction(bx, by);
        self.column_run_is_open(bx, by - 1);
        self.column_run_is_open(bx, self.last_anchor_row());
        self.anchor_after_is_vertex(bx, by - 1);
        self.anchor_after_is_vertex(bx, self.last_anchor_row());
        let n = self.span(from, edge.to, edge.direction);
        let x = self.column_of(from as int);
        let y = self.row_of(from as int);
        assert forall|k: int| 0 <= k <= n implies self.passable(
            self.column_of(#[trigger] self.step_from(from, edge.direction, k)),
            self.row_of(self.step_from(from, edge.direction, k)),
        ) by {
            match edge.direction {
                Direction::Right => {
                    self.coord_of_id(x + k, y);
                },
                Direction::Left => {
                    self.coord_of_id(x - k, y);
                },
                Direction::Down => {
                    self.coord_of_id(x, y + k);
                },
                Direction::Up => {
                    self.coord_of_id(x, y - k);
                },
            }
        }
    }

    /// The trail of a walk through the graph of a scanned maze crosses
    /// passable cells only.
    pub proof fn trail_is_open(&self, graph: Adjacency, path: Seq<usize>)
        requires
            self.wf(),
            self.spec_height() >= 2,
            forall|from: usize, edge: Edge| #[trigger]
                has_edge(graph, from, edge) ==> self.is_link(from, edge),
            is_walk(graph, path),
            path.len() > 1,
        ensures
            forall|i: int|
                0 <= i < self.trail(graph, path).len() ==> self.passable(
                    self.column_of(#[trigger] self.trail(graph, path)[i] as int),
                    self.row_of(self.trail(graph, path)[i] as int),
                ),
        decreases path.len(),
    {
        let before = path.drop_last();
        let from = path[path.len() - 2];
        let to = path[path.len() - 1];
        assert(connects(graph, path[path.len() - 2], path[path.len() - 2 + 1]));
        connects_iff_edge(graph, from, to);
        let edge = link_between(graph, from, to);
        self.link_is_open(from, edge);
        self.links_lead_straight(from, edge);
        self.leg_is_connected(from, to, edge.direction);
        let head = self.trail(graph, before);
        let leg = self.leg(graph, from, to);
        let whole = self.trail(graph, path);
        assert(whole == head + leg);
        if before.len() > 1 {
            assert forall|i: int| 0 <= i < before.len() - 1 implies connects(
                graph,
                #[trigger] before[i],
                before[i + 1],
            ) by {
                assert(connects(graph, path[i], path[i + 1]));
            }
            self.trail_is_open(graph, before);
        } else {
            assert(head =~= seq![from]);
            assert(self.step_from(from, edge.direction, 0) == from);
        }
        assert forall|i: int| 0 <= i < whole.len() implies self.passable(
            self.column_of(#[trigger] whole[i] as int),
            self.row_of(whole[i] as int),
        ) by {
            if i < head.len() {
                assert(whole[i] == head[i]);
            } else {
                let k = i - head.len();
                assert(whole[i] == leg[k]);
                assert(0 <= self.step_from(from, edge.direction, k + 1) < self.area());
            }
        }
    }

    /// The trail of a walk through the graph of a scanned maze has one cell
    /// for its first vertex and one for each unit of the walk's weight.
    pub proof fn trail_len_is_weight(&self, graph: Adjacency, path: Seq<usize>)
        requires
            self.wf(),
            self.spec_height() >= 2,
            forall|from: usize, edge: Edge| #[trigger]
                has_edge(graph, from, edge) ==> self.is_link(from, edge),
            is_walk(graph, path),
            path.len() > 0,
        ensures
            self.trail(graph, path).len() == 1 + walk_weight(graph, path),
        decreases path.len(),
    {
        if path.len() > 1 {
            let before = path.drop_last();
            let from = path[path.len() - 2];
            let to = path[path.len() - 1];
            assert(connects(graph, path[path.len() - 2], path[path.len() - 2 + 1]));
            connects_iff_edge(graph, from, to);
            self.link_is_open(from, link_between(graph, from, to));
            self.links_lead_straight(from, link_between(graph, from, to));
            assert forall|i: int| 0 <= i < before.len() - 1 implies connects(
                graph,
                #[trigger] before[i],
                before[i + 1],
            ) by {
                assert(connects(graph, path[i], path[i + 1]));
            }
            self.trail_len_is_weight(graph, before);
        }
    }

    /// What a search finds in the graph of a scanned maze can be expanded,
    /// and the trail leads from the entry to the exit, each cell a
    /// neighbour of the one before. A maze of a single row is left out: its
    /// entry is its exit, and the link between them leads nowhere.
    pub proof fn solution_expands(
        &self,
        graph: Adjacency,
        start: usize,
        end: usize,
        path: Seq<usize>,
    )
        requires
            self.wf(),
            self.spec_height() >= 2,
            self.scanned_as(graph, start, end),
            is_walk(graph, path),
            path.len() > 0,
            path.first() == start,
            path.last() == end,
        ensures
            self.routable(graph, path),
            self.trail(graph, path).first() == start,
            self.trail(graph, path).last() == end,
            forall|i: int|
                0 <= i < self.trail(graph, path).len() - 1 ==> self.adjacent(
                    #[trigger] self.trail(graph, path)[i],
                    self.trail(graph, path)[i + 1],
                ),
            forall|i: int|
                0 <= i < self.trail(graph, path).len() ==> #[trigger] self.trail(graph, path)[i]
                    < self.area() && self.passable(
                    self.column_of(self.trail(graph, path)[i] as int),
                    self.row_of(self.trail(graph, path)[i] as int),
                ),
            self.trail(graph, path).len() == 1 + walk_weight(graph, path),
    {
        self.walk_is_routable(graph, path);
        self.trail_is_connected(graph, path);
        self.trail_len_is_weight(graph, path);
        if path.len() > 1 {
            self.trail_is_open(graph, path);
        }
    }

    /// Expands a route into its trail: for each vertex after the first, the
    /// first edge from the vertex before is looked up and its direction is
    /// followed, one cell at a time, until the vertex is reached.
    pub fn full_path(&mut self, graph: &Graph, path: &[usize]) -> (full: Vec<usize>)
        requires
            path@.len() > 0,
            old(self).routable(graph@, path@),
        ensures
            *final(self) == *old(self),
            full@ == old(self).trail(graph@, path@),
    {
        proof {
            use_type_invariant(&*self);
        }
        let mut prev = path[0];
        let mut full: Vec<usize> = Vec::new();
        full.push(prev);
        let mut i: usize = 1;
        assert(path@.subrange(0, 1) =~= seq![path@[0]]);
        while i < path.len()
            invariant
                self.wf(),
                *self == *old(self),
                1 <= i <= path@.len(),
                prev == path@[i - 1],
                self.routable(graph@, path@),
                full@ == self.trail(graph@, path@.subrange(0, i as int)),
            decreases path@.len() - i,
        {
            let vertex = path[i];
            proof {
                assert(self.leads(graph@, path@[i - 1], path@[i - 1 + 1]));
                self.leg_is_connected(prev, vertex, link_between(graph@, prev, vertex).direction);
                self.grid_is_bounded();
                self.id_of_coord(prev as int);
                self.id_of_coord(vertex as int);
            }
            let dir = graph.get_edge(prev, vertex).unwrap().direction;
            let (x, y) = self.to_coord(prev);
            let (tx, ty) = self.to_coord(vertex);
            let ghost head = full@;
            let ghost leg = self.leg(graph@, prev, vertex);
            let ghost n = self.span(prev, vertex, dir);
            let mut nx = x;
            let mut ny = y;
            match dir {
                Direction::Right => {
                    nx = x + 1;
                },
                Direction::Left => {
                    nx = x - 1;
                },
                Direction::Down => {
                    ny = y + 1;
                },
                Direction::Up => {
                    ny = y - 1;
                },
            }
            let ghost mut k: int = 0;
            while nx != tx || ny != ty
                invariant
                    self.wf(),
                    *self == *old(self),
                    self.lies_toward(prev, vertex, dir),
                    n == self.span(prev, vertex, dir),
                    leg == self.leg(graph@, prev, vertex),
                    leg.len() == n,
                    dir == link_between(graph@, prev, vertex).direction,
                    x == self.column_of(prev as int),
                    y == self.row_of(prev as int),
                    tx == self.column_of(vertex as int),
                    ty == self.row_of(vertex as int),
                    self.in_grid(x as int, y as int),
                    self.in_grid(tx as int, ty as int),
                    0 <= k < n,
                    nx == (match dir {
                        Direction::Right => x + k + 1,
                        Direction::Left => x - k - 1,
                        _ => x as int,
                    }),
                    ny == (match dir {
                        Direction::Down => y + k + 1,
                        Direction::Up => y - k - 1,
                        _ => y as int,
                    }),
                    full@ == head + leg.subrange(0, k),
                decreases n - k,
            {
                full.push(self.to_index(nx, ny));
                match dir {
                    Direction::Right => {
                        nx += 1;
                    },
                    Direction::Left => {
                        nx -= 1;
                    },
                    Direction::Down => {
                        ny += 1;
                    },
                    Direction::Up => {
                        ny -= 1;
                    },
                }
                proof {
                    assert(leg[k] == self.step_from(prev, dir, k + 1) as usize);
                    assert(head + leg.subrange(0, k + 1) =~= (head + leg.subrange(0, k)).push(leg[k]));
                    k = k + 1;
                }
            }
            full.push(vertex);
            proof {
                assert(k == n - 1);
                assert(leg[k] == vertex);
                assert(leg =~= leg.subrange(0, k).push(vertex));
                assert(full@ =~= head + leg);
                let upto = path@.subrange(0, i + 1);
                assert(upto.drop_last() =~= path@.subrange(0, i as int));
            }
            prev = vertex;
            i += 1;
        }
        assert(path@.subrange(0, i as int) =~= path@);
        full
    }
}

} // verus!
