//! Walks over the cells of the grid, and why the sparse graph loses none of
//! them: whatever way leads over passable cells from the entry to a vertex,
//! a route of the graph leads there at no greater length.

use crate::graph::{
    connects_iff_edge, has_edge, link_between, walk_weight, Adjacency, Direction, Edge,
};
use crate::maze::Maze;
use crate::solver::route::{
    is_cheapest_path, is_route, route_end, route_extended, route_is_walk, route_shortened,
    route_vertices, route_weight,
};
use vstd::prelude::*;

verus! {

/// How far `steps` steps in `direction` lead to the right.
pub open spec fn ahead_x(direction: Direction, steps: int) -> int {
    match direction {
        Direction::Right => steps,
        Direction::Left => -steps,
        _ => 0,
    }
}

/// How far `steps` steps in `direction` lead down.
pub open spec fn ahead_y(direction: Direction, steps: int) -> int {
    match direction {
        Direction::Down => steps,
        Direction::Up => -steps,
        _ => 0,
    }
}

impl Maze {
    /// Whether `(x, y)` is a vertex of the scanned graph: a junction, the
    /// entry or the exit.
    #[verifier::opaque]
    pub open spec fn is_vertex(&self, x: int, y: int) -> bool {
        self.is_junction(x, y) || ((y == 0 || y == self.spec_height() - 1) && self.is_first_open(
            x,
            y,
        ))
    }

    /// Whether the border is walled but for the entry and the exit.
    pub open spec fn border_is_closed(&self) -> bool {
        forall|x: int, y: int| #[trigger]
            self.passable(x, y) && !(self.inner_column(x) && self.inner_row(y)) ==> self.is_vertex(
                x,
                y,
            )
    }

    /// Whether `cells` is a way over the grid: passable cells, each a
    /// neighbour of the one before.
    pub open spec fn is_grid_walk(&self, cells: Seq<usize>) -> bool {
        &&& forall|i: int|
            0 <= i < cells.len() ==> (#[trigger] cells[i]) < self.area() && self.passable(
                self.column_of(cells[i] as int),
                self.row_of(cells[i] as int),
            )
        &&& forall|i: int| 0 <= i < cells.len() - 1 ==> self.adjacent(#[trigger] cells[i], cells[i + 1])
    }

    /// Whether the cell `steps` steps from `(x, y)` in `direction` is a
    /// passable cell that is no vertex.
    pub open spec fn is_corridor(&self, x: int, y: int, direction: Direction, steps: int) -> bool {
        let cx = x + ahead_x(direction, steps);
        let cy = y + ahead_y(direction, steps);
        self.passable(cx, cy) && !self.is_vertex(cx, cy)
    }

    /// Whether the first `steps` cells from `(x, y)` in `direction` are
    /// passable cells without a vertex among them.
    pub open spec fn is_open_run(&self, x: int, y: int, direction: Direction, steps: int) -> bool {
        forall|k: int| 1 <= k <= steps ==> #[trigger] self.is_corridor(x, y, direction, k)
    }

    // The maze is well formed, has two rows or more and a closed border,
    // and the graph was scanned from it.
    #[verifier::opaque]
    spec fn is_sealed_scan(&self, graph: Adjacency, start: usize, end: usize) -> bool {
        &&& self.wf()
        &&& self.spec_height() >= 2
        &&& self.scanned_as(graph, start, end)
        &&& self.border_is_closed()
    }

    /// A junction with only corridor cells between it and a junction to
    /// its right is what that junction is linked to on its left.
    pub proof fn run_anchors_left(&self, ax: int, bx: int, y: int)
        requires
            ax < bx,
            self.is_junction(ax, y),
            forall|c: int| ax < c < bx ==> self.passable(c, y) && !self.is_junction(c, y),
        ensures
            self.left_anchor(bx, y) == ax,
        decreases bx - ax,
    {
        if bx - 1 > ax {
            self.run_anchors_left(ax, bx - 1, y);
        }
    }

    /// A junction or the entry with only corridor cells below it, down to
    /// row `y`, is what a vertex below row `y` is linked to.
    pub proof fn run_anchors_up(&self, x: int, ay: int, y: int)
        requires
            0 <= ay <= y,
            self.is_junction(x, ay) || (ay == 0 && self.is_first_open(x, 0)),
            forall|r: int| ay < r <= y ==> self.passable(x, r) && !self.is_junction(x, r),
        ensures
            self.anchor_after(x, y) == ay,
        decreases y - ay,
    {
        if y > ay {
            self.run_anchors_up(x, ay, y - 1);
        }
    }

    // Two vertices with only corridor cells between them are linked: the
    // graph of the scanned maze has the edge from the one to the other.
    proof fn run_is_linked(
        &self,
        graph: Adjacency,
        start: usize,
        end: usize,
        x: int,
        y: int,
        direction: Direction,
        steps: int,
    )
        requires
            self.is_sealed_scan(graph, start, end),
            steps >= 1,
            self.is_vertex(x, y),
            self.is_open_run(x, y, direction, steps - 1),
            self.is_vertex(x + ahead_x(direction, steps), y + ahead_y(direction, steps)),
            self.passable(x, y),
            self.passable(x + ahead_x(direction, steps), y + ahead_y(direction, steps)),
        ensures
            has_edge(
                graph,
                self.id_of(x, y) as usize,
                Edge {
                    to: self.id_of(x + ahead_x(direction, steps), y + ahead_y(direction, steps)) as usize,
                    weight: steps as usize,
                    direction,
                },
            ),
    {
        reveal(Maze::is_sealed_scan);
        reveal(Maze::is_vertex);
        self.grid_is_bounded();
        let bx = x + ahead_x(direction, steps);
        let by = y + ahead_y(direction, steps);
        let from = self.id_of(x, y) as usize;
        let to = self.id_of(bx, by) as usize;
        self.id_in_area(x, y);
        self.id_in_area(bx, by);
        self.coord_of_id(x, y);
        self.coord_of_id(bx, by);
        let edge = Edge { to, weight: steps as usize, direction };
        match direction {
            Direction::Right => {
                assert forall|c: int| x < c < bx implies self.passable(c, y) && !self.is_junction(
                    c,
                    y,
                ) by {
                    assert(self.is_corridor(x, y, direction, c - x));
                }
                assert(self.is_junction(x, y) && self.is_junction(bx, by));
                self.run_anchors_left(x, bx, y);
            },
            Direction::Left => {
                assert forall|c: int| bx < c < x implies self.passable(c, y) && !self.is_junction(
                    c,
                    y,
                ) by {
                    assert(self.is_corridor(x, y, direction, x - c));
                }
                assert(self.is_junction(x, y) && self.is_junction(bx, by));
                self.run_anchors_left(bx, x, y);
            },
            Direction::Down => {
                assert forall|r: int| y < r <= by - 1 implies self.passable(x, r) && !self.is_junction(
                    x,
                    r,
                ) by {
                    assert(self.is_corridor(x, y, direction, r - y));
                }
                self.run_anchors_up(x, y, by - 1);
            },
            Direction::Up => {
                assert forall|r: int| by < r <= y - 1 implies self.passable(x, r) && !self.is_junction(
                    x,
                    r,
                ) by {
                    assert(self.is_corridor(x, y, direction, y - r));
                }
                self.run_anchors_up(x, by, y - 1);
            },
        }
        assert(self.is_link(from, edge));
    }
    // One step from a vertex: along the edge to the vertex next to it, or
    // into the corridor that leaves it. The result names the route, the
    // vertex, the direction of the run and its length after the step.
    proof fn step_from_vertex(
        &self,
        graph: Adjacency,
        start: usize,
        end: usize,
        route: Seq<Edge>,
        vx: int,
        vy: int,
        nx: int,
        ny: int,
    ) -> (found: (Seq<Edge>, int, int, Direction, int))
        requires
            self.is_sealed_scan(graph, start, end),
            is_route(graph, start, route),
            self.is_vertex(vx, vy),
            self.passable(vx, vy),
            route_end(start, route) == self.id_of(vx, vy),
            self.passable(nx, ny),
            (nx == vx && (ny == vy + 1 || ny == vy - 1)) || (ny == vy && (nx == vx + 1 || nx == vx
                - 1)),
        ensures
            is_route(graph, start, found.0),
            self.is_vertex(found.1, found.2),
            self.passable(found.1, found.2),
            route_end(start, found.0) == self.id_of(found.1, found.2),
            found.4 >= 0,
            self.is_open_run(found.1, found.2, found.3, found.4),
            nx == found.1 + ahead_x(found.3, found.4),
            ny == found.2 + ahead_y(found.3, found.4),
            route_weight(found.0) + found.4 <= route_weight(route) + 1,
    {
        let step = if nx == vx + 1 {
            Direction::Right
        } else if nx == vx - 1 {
            Direction::Left
        } else if ny == vy + 1 {
            Direction::Down
        } else {
            Direction::Up
        };
        assert(nx == vx + ahead_x(step, 1) && ny == vy + ahead_y(step, 1));
        if self.is_vertex(nx, ny) {
            self.run_is_linked(graph, start, end, vx, vy, step, 1);
            let edge = Edge { to: self.id_of(nx, ny) as usize, weight: 1, direction: step };
            self.cell_has_id(graph, start, end, nx, ny);
            route_extended(graph, start, route, edge);
            (route.push(edge), nx, ny, step, 0)
        } else {
            assert(self.is_corridor(vx, vy, step, 1));
            (route, vx, vy, step, 1)
        }
    }

    // The id of a passable cell is a vertex id.
    proof fn cell_has_id(&self, graph: Adjacency, start: usize, end: usize, x: int, y: int)
        requires
            self.is_sealed_scan(graph, start, end),
            self.passable(x, y),
        ensures
            0 <= self.id_of(x, y) < self.area() <= usize::MAX,
            self.spec_width() <= usize::MAX,
            self.spec_height() <= usize::MAX,
    {
        reveal(Maze::is_sealed_scan);
        self.grid_is_bounded();
        self.id_in_area(x, y);
        self.sides_fit();
    }

    // A corridor cell has passable neighbours only along its corridor.
    proof fn corridor_is_straight(
        &self,
        graph: Adjacency,
        start: usize,
        end: usize,
        x: int,
        y: int,
        nx: int,
        ny: int,
    )
        requires
            self.is_sealed_scan(graph, start, end),
            self.passable(x, y),
            !self.is_vertex(x, y),
            self.passable(nx, ny),
            (nx == x && (ny == y + 1 || ny == y - 1)) || (ny == y && (nx == x + 1 || nx == x - 1)),
        ensures
            ny == y ==> self.passable(x - 1, y) && self.passable(x + 1, y) && !self.passable(x, y - 1)
                && !self.passable(x, y + 1),
            nx == x ==> self.passable(x, y - 1) && self.passable(x, y + 1) && !self.passable(x - 1, y)
                && !self.passable(x + 1, y),
    {
        reveal(Maze::is_sealed_scan);
        reveal(Maze::is_vertex);
        assert(self.inner_column(x) && self.inner_row(y));
        assert(!self.is_turn(x, y));
    }

    // One step from a corridor cell: on along the corridor, to the vertex
    // at its end, or back.
    proof fn step_in_corridor(
        &self,
        graph: Adjacency,
        start: usize,
        end: usize,
        route: Seq<Edge>,
        vx: int,
        vy: int,
        dir: Direction,
        d: int,
        nx: int,
        ny: int,
    ) -> (found: (Seq<Edge>, int, int, Direction, int))
        requires
            self.is_sealed_scan(graph, start, end),
            is_route(graph, start, route),
            self.is_vertex(vx, vy),
            self.passable(vx, vy),
            route_end(start, route) == self.id_of(vx, vy),
            d >= 1,
            self.is_open_run(vx, vy, dir, d),
            self.passable(nx, ny),
            ({
                let cx = vx + ahead_x(dir, d);
                let cy = vy + ahead_y(dir, d);
                (nx == cx && (ny == cy + 1 || ny == cy - 1)) || (ny == cy && (nx == cx + 1 || nx == cx
                    - 1))
            }),
        ensures
            is_route(graph, start, found.0),
            self.is_vertex(found.1, found.2),
            self.passable(found.1, found.2),
            route_end(start, found.0) == self.id_of(found.1, found.2),
            found.4 >= 0,
            self.is_open_run(found.1, found.2, found.3, found.4),
            nx == found.1 + ahead_x(found.3, found.4),
            ny == found.2 + ahead_y(found.3, found.4),
            route_weight(found.0) + found.4 <= route_weight(route) + d + 1,
    {
        let cx = vx + ahead_x(dir, d);
        let cy = vy + ahead_y(dir, d);
        assert(self.is_corridor(vx, vy, dir, d));
        self.corridor_is_straight(graph, start, end, cx, cy, nx, ny);
        if d > 1 {
            assert(self.is_corridor(vx, vy, dir, d - 1));
        }
        assert(self.passable(vx + ahead_x(dir, d - 1), vy + ahead_y(dir, d - 1)));
        let onward = nx == cx + ahead_x(dir, 1) && ny == cy + ahead_y(dir, 1);
        let backward = nx == cx - ahead_x(dir, 1) && ny == cy - ahead_y(dir, 1);
        assert(onward || backward);
        if onward {
            if self.is_vertex(nx, ny) {
                self.run_is_linked(graph, start, end, vx, vy, dir, d + 1);
                self.cell_has_id(graph, start, end, nx, ny);
                self.cell_has_id(graph, start, end, vx, vy);
                let edge = Edge {
                    to: self.id_of(nx, ny) as usize,
                    weight: (d + 1) as usize,
                    direction: dir,
                };
                route_extended(graph, start, route, edge);
                (route.push(edge), nx, ny, dir, 0)
            } else {
                assert(self.is_corridor(vx, vy, dir, d + 1));
                (route, vx, vy, dir, d + 1)
            }
        } else {
            (route, vx, vy, dir, d - 1)
        }
    }

    // The entry is a vertex.
    proof fn entry_is_vertex(&self, graph: Adjacency, start: usize, end: usize)
        requires
            self.is_sealed_scan(graph, start, end),
        ensures
            self.is_vertex(self.column_of(start as int), self.row_of(start as int)),
            self.passable(self.column_of(start as int), self.row_of(start as int)),
            self.id_of(self.column_of(start as int), self.row_of(start as int)) == start,
    {
        reveal(Maze::is_sealed_scan);
        reveal(Maze::is_vertex);
        self.grid_is_bounded();
        self.id_of_coord(start as int);
    }

    // A way over the grid without its last cell is a way over the grid,
    // and its last two cells are one step apart.
    proof fn way_shortened(&self, cells: Seq<usize>)
        requires
            self.is_grid_walk(cells),
            cells.len() > 1,
        ensures
            self.is_grid_walk(cells.drop_last()),
            self.passable(self.column_of(cells.last() as int), self.row_of(cells.last() as int)),
            ({
                let cx = self.column_of(cells.drop_last().last() as int);
                let cy = self.row_of(cells.drop_last().last() as int);
                let nx = self.column_of(cells.last() as int);
                let ny = self.row_of(cells.last() as int);
                (nx == cx && (ny == cy + 1 || ny == cy - 1)) || (ny == cy && (nx == cx + 1 || nx == cx
                    - 1))
            }),
    {
        let before = cells.drop_last();
        assert forall|i: int| 0 <= i < before.len() implies (#[trigger] before[i]) < self.area()
            && self.passable(self.column_of(before[i] as int), self.row_of(before[i] as int)) by {
            assert(before[i] == cells[i]);
        }
        assert forall|i: int| 0 <= i < before.len() - 1 implies self.adjacent(
            #[trigger] before[i],
            before[i + 1],
        ) by {
            assert(self.adjacent(cells[i], cells[i + 1]));
        }
        assert(before.last() == cells[cells.len() - 2]);
        assert(self.adjacent(cells[cells.len() - 2], cells[cells.len() - 2 + 1]));
    }

    // Wherever a way over the grid from the entry has come to, a route of
    // the graph has come to a vertex from which that cell is reached along
    // a run of corridor cells, and the route and the run together are no
    // longer than the way. The result names the route, the vertex, the
    // direction of the run and its length.
    proof fn walk_is_anchored(
        &self,
        graph: Adjacency,
        start: usize,
        end: usize,
        cells: Seq<usize>,
    ) -> (found: (Seq<Edge>, int, int, Direction, int))
        requires
            self.is_sealed_scan(graph, start, end),
            self.is_grid_walk(cells),
            cells.len() > 0,
            cells[0] == start,
        ensures
            is_route(graph, start, found.0),
            self.is_vertex(found.1, found.2),
            self.passable(found.1, found.2),
            route_end(start, found.0) == self.id_of(found.1, found.2),
            found.4 >= 0,
            self.is_open_run(found.1, found.2, found.3, found.4),
            self.column_of(cells.last() as int) == found.1 + ahead_x(found.3, found.4),
            self.row_of(cells.last() as int) == found.2 + ahead_y(found.3, found.4),
            route_weight(found.0) + found.4 <= cells.len() - 1,
        decreases cells.len(),
    {
        if cells.len() == 1 {
            self.entry_is_vertex(graph, start, end);
            (
                Seq::<Edge>::empty(),
                self.column_of(start as int),
                self.row_of(start as int),
                Direction::Down,
                0,
            )
        } else {
            self.way_shortened(cells);
            let before = cells.drop_last();
            let (route, vx, vy, dir, d) = self.walk_is_anchored(graph, start, end, before);
            let nx = self.column_of(cells.last() as int);
            let ny = self.row_of(cells.last() as int);
            if d == 0 {
                self.step_from_vertex(graph, start, end, route, vx, vy, nx, ny)
            } else {
                self.step_in_corridor(graph, start, end, route, vx, vy, dir, d, nx, ny)
            }
        }
    }

    /// Whatever way leads over the grid from the entry to the exit, a route
    /// of the graph leads there at no greater length.
    pub proof fn walk_has_route(&self, graph: Adjacency, start: usize, end: usize, cells: Seq<usize>)
        requires
            self.wf(),
            self.spec_height() >= 2,
            self.scanned_as(graph, start, end),
            self.border_is_closed(),
            self.is_grid_walk(cells),
            cells.len() > 0,
            cells.first() == start,
            cells.last() == end,
        ensures
            exists|route: Seq<Edge>|
                is_route(graph, start, route) && route_end(start, route) == end && route_weight(route)
                    <= cells.len() - 1,
    {
        assert(self.is_sealed_scan(graph, start, end)) by {
            reveal(Maze::is_sealed_scan);
        }
        let (route, vx, vy, dir, d) = self.walk_is_anchored(graph, start, end, cells);
        reveal(Maze::is_vertex);
        self.grid_is_bounded();
        self.id_of_coord(end as int);
        if d > 0 {
            assert(self.is_corridor(vx, vy, dir, d));
        }
        assert(is_route(graph, start, route) && route_end(start, route) == end && route_weight(route)
            <= cells.len() - 1);
    }

    /// In the graph of a scanned maze no two edges lead from one vertex to
    /// the same vertex.
    pub proof fn scanned_edges_are_unique(
        &self,
        graph: Adjacency,
        start: usize,
        end: usize,
        from: usize,
        one: Edge,
        other: Edge,
    )
        requires
            self.wf(),
            self.spec_height() >= 2,
            self.scanned_as(graph, start, end),
            has_edge(graph, from, one),
            has_edge(graph, from, other),
            one.to == other.to,
        ensures
            one == other,
    {
        self.links_lead_straight(from, one);
        self.links_lead_straight(from, other);
        self.link_is_open(from, one);
        self.link_is_open(from, other);
    }

    /// In the graph of a scanned maze a route weighs what the walk over its
    /// vertices weighs.
    pub proof fn route_weighs_its_walk(
        &self,
        graph: Adjacency,
        start: usize,
        end: usize,
        from: usize,
        route: Seq<Edge>,
    )
        requires
            self.wf(),
            self.spec_height() >= 2,
            self.scanned_as(graph, start, end),
            is_route(graph, from, route),
        ensures
            route_weight(route) == walk_weight(graph, route_vertices(from, route)),
        decreases route.len(),
    {
        let path = route_vertices(from, route);
        if route.len() > 0 {
            let shorter = route.drop_last();
            route_shortened(graph, from, route);
            self.route_weighs_its_walk(graph, start, end, from, shorter);
            assert(path.drop_last() =~= route_vertices(from, shorter));
            let a = path[path.len() - 2];
            let b = path[path.len() - 1];
            assert(a == route_end(from, shorter));
            assert(b == route.last().to);
            connects_iff_edge(graph, a, b);
            assert(has_edge(graph, a, route.last()));
            self.scanned_edges_are_unique(
                graph,
                start,
                end,
                a,
                route.last(),
                link_between(graph, a, b),
            );
        }
    }

    /// The cheapest path through the graph of a scanned maze with a closed
    /// border is a shortest way over the grid: its trail is a way from the
    /// entry to the exit over as many steps as the path weighs, and no way
    /// over the grid from the entry to the exit takes fewer.
    pub proof fn cheapest_path_is_shortest_way(
        &self,
        graph: Adjacency,
        start: usize,
        end: usize,
        path: Seq<usize>,
        cells: Seq<usize>,
    )
        requires
            self.wf(),
            self.spec_height() >= 2,
            self.scanned_as(graph, start, end),
            self.border_is_closed(),
            is_cheapest_path(graph, start, path),
            path.last() == end,
            self.is_grid_walk(cells),
            cells.len() > 0,
            cells.first() == start,
            cells.last() == end,
        ensures
            self.is_grid_walk(self.trail(graph, path)),
            self.trail(graph, path).first() == start,
            self.trail(graph, path).last() == end,
            self.trail(graph, path).len() - 1 == walk_weight(graph, path),
            walk_weight(graph, path) <= cells.len() - 1,
    {
        let route = choose|route: Seq<Edge>|
            {
                &&& is_route(graph, start, route)
                &&& route_vertices(start, route) == path
                &&& forall|other: Seq<Edge>|
                    is_route(graph, start, other) && route_end(start, other) == route_end(
                        start,
                        route,
                    ) ==> route_weight(route) <= route_weight(other)
            };
        route_is_walk(graph, start, route);
        self.solution_expands(graph, start, end, path);
        self.route_weighs_its_walk(graph, start, end, start, route);
        self.walk_has_route(graph, start, end, cells);
    }
}

} // verus!
