//! Scanning the grid into a sparse graph: only the entry, the exit and the
//! cells where the passable region turns or branches become vertices, and
//! straight runs between them are folded into edge weights.

use crate::graph::{edges_after_insert, edges_are_distinct, has_edge, with_edge, Adjacency};
use crate::graph::{Direction, Edge, Graph};
use crate::maze::Maze;
use vstd::prelude::*;

verus! {

/// `adjacency` after an edge from `near` to `far` and the edge back were
/// inserted.
pub open spec fn with_link(
    adjacency: Adjacency,
    near: usize,
    far: usize,
    weight: usize,
    direction: Direction,
) -> Adjacency {
    with_edge(
        with_edge(adjacency, near, Edge { to: far, weight, direction }),
        far,
        Edge { to: near, weight, direction: direction.spec_opposite() },
    )
}

/// After a link is inserted the graph holds the edges it held and the two
/// edges of the link.
pub proof fn edges_after_link(
    adjacency: Adjacency,
    near: usize,
    far: usize,
    weight: usize,
    direction: Direction,
)
    ensures
        forall|vertex: usize, other: Edge| #[trigger]
            has_edge(with_link(adjacency, near, far, weight, direction), vertex, other) <==> {
                ||| has_edge(adjacency, vertex, other)
                ||| (vertex == near && other == Edge { to: far, weight, direction })
                ||| (vertex == far && other == Edge {
                    to: near,
                    weight,
                    direction: direction.spec_opposite(),
                })
            },
        edges_are_distinct(adjacency) && !has_edge(
            adjacency,
            near,
            Edge { to: far, weight, direction },
        ) && !has_edge(
            adjacency,
            far,
            Edge { to: near, weight, direction: direction.spec_opposite() },
        ) ==> edges_are_distinct(with_link(adjacency, near, far, weight, direction)),
{
    let forth = Edge { to: far, weight, direction };
    let back = Edge { to: near, weight, direction: direction.spec_opposite() };
    let half = with_edge(adjacency, near, forth);
    edges_after_insert(adjacency, near, forth);
    edges_after_insert(half, far, back);
    assert(forth != back);
}

impl Maze {
    /// Columns strictly inside the left and right border.
    pub open spec fn inner_column(&self, x: int) -> bool {
        1 <= x < self.spec_width() - 1
    }

    /// Rows strictly inside the top and bottom border.
    pub open spec fn inner_row(&self, y: int) -> bool {
        1 <= y < self.spec_height() - 1
    }

    /// Whether the passable region turns or branches at `(x, y)`: the cells
    /// above and below differ, or those to the left and right differ, or
    /// all four are passable.
    pub open spec fn is_turn(&self, x: int, y: int) -> bool {
        let up = self.passable(x, y - 1);
        let down = self.passable(x, y + 1);
        let left = self.passable(x - 1, y);
        let right = self.passable(x + 1, y);
        up != down || left != right || (up && down && left && right)
    }

    /// Whether `(x, y)` is a vertex of the interior: a passable cell inside
    /// the border at which the region turns or branches.
    pub open spec fn is_junction(&self, x: int, y: int) -> bool {
        self.inner_column(x) && self.inner_row(y) && self.passable(x, y) && self.is_turn(x, y)
    }

    /// Whether `x` is the leftmost passable inner column of row `y`.
    pub open spec fn is_first_open(&self, x: int, y: int) -> bool {
        &&& self.inner_column(x)
        &&& self.passable(x, y)
        &&& forall|c: int| 1 <= c < x ==> !self.passable(c, y)
    }

    /// Whether row `y` has a passable cell in an inner column.
    pub open spec fn has_open(&self, y: int) -> bool {
        exists|x: int| self.inner_column(x) && self.passable(x, y)
    }

    /// The column of the vertex that a vertex at `(x, y)` is linked to on
    /// its left: the nearest junction to the left with only passable cells
    /// in between, or -1 if a wall or the border comes first.
    pub open spec fn left_anchor(&self, x: int, y: int) -> int
        decreases x,
    {
        if x <= 1 {
            -1
        } else if self.is_junction(x - 1, y) {
            x - 1
        } else if !self.passable(x - 1, y) {
            -1
        } else {
            self.left_anchor(x - 1, y)
        }
    }

    /// The row of the vertex that a vertex below `(x, y)` in column `x` is
    /// linked to: the nearest junction at or above `(x, y)`, or the entry in
    /// the top row, with only passable cells in between, or -1 if a wall
    /// comes first.
    pub open spec fn anchor_after(&self, x: int, y: int) -> int
        decreases y,
    {
        if y < 0 {
            -1
        } else if y == 0 {
            if self.is_first_open(x, 0) {
                0
            } else {
                -1
            }
        } else if self.is_junction(x, y) {
            y
        } else if !self.passable(x, y) {
            -1
        } else {
            self.anchor_after(x, y - 1)
        }
    }

    /// The last row from which the exit is linked: the row above the bottom
    /// row, or the top row when the grid has no other.
    pub open spec fn last_anchor_row(&self) -> int {
        if self.spec_height() >= 2 {
            self.spec_height() - 2
        } else {
            0
        }
    }

    /// A junction at `(bx, by)` and the vertex `(ax, ay)` to its left form a
    /// horizontal link.
    pub open spec fn run_right(&self, ax: int, ay: int, bx: int, by: int) -> bool {
        ay == by && self.is_junction(bx, by) && ax >= 0 && ax == self.left_anchor(bx, by)
    }

    /// A junction at `(bx, by)` and the vertex `(ax, ay)` above it form a
    /// vertical link.
    pub open spec fn run_down(&self, ax: int, ay: int, bx: int, by: int) -> bool {
        ax == bx && self.is_junction(bx, by) && ay >= 0 && ay == self.anchor_after(bx, by - 1)
    }

    /// The exit at `(bx, by)` and the vertex `(ax, ay)` above it form a
    /// vertical link.
    pub open spec fn run_out(&self, ax: int, ay: int, bx: int, by: int) -> bool {
        &&& ax == bx
        &&& by == self.spec_height() - 1
        &&& self.is_first_open(bx, by)
        &&& ay >= 0
        &&& ay == self.anchor_after(bx, self.last_anchor_row())
    }

    /// The upper or left end of the link that `edge` from `from` runs along.
    pub open spec fn near_end(from: usize, edge: Edge) -> usize {
        match edge.direction {
            Direction::Right | Direction::Down => from,
            Direction::Left | Direction::Up => edge.to,
        }
    }

    /// The lower or right end of the link that `edge` from `from` runs
    /// along.
    pub open spec fn far_end(from: usize, edge: Edge) -> usize {
        match edge.direction {
            Direction::Right | Direction::Down => edge.to,
            Direction::Left | Direction::Up => from,
        }
    }

    /// Whether `edge` from `from` is one of the two edges of a link of this
    /// maze: its ends are a vertex and the nearest vertex to the left of or
    /// above it, its weight is the number of steps between them, and its
    /// direction is the way from `from` to its target.
    pub open spec fn is_link(&self, from: usize, edge: Edge) -> bool {
        let near = Self::near_end(from, edge);
        let far = Self::far_end(from, edge);
        let ax = self.column_of(near as int);
        let ay = self.row_of(near as int);
        let bx = self.column_of(far as int);
        let by = self.row_of(far as int);
        &&& near < self.area()
        &&& far < self.area()
        &&& match edge.direction {
            Direction::Right | Direction::Left => self.run_right(ax, ay, bx, by) && edge.weight
                == bx - ax,
            Direction::Down | Direction::Up => (self.run_down(ax, ay, bx, by) || self.run_out(
                ax,
                ay,
                bx,
                by,
            )) && edge.weight == by - ay,
        }
    }

    /// Whether `edge` from `from` belongs to a link whose lower or right end
    /// is a junction that a sweep over the rows has passed when it stands at
    /// `(x, y)`.
    pub open spec fn is_swept_link(&self, from: usize, edge: Edge, x: int, y: int) -> bool {
        let far = Self::far_end(from, edge);
        let bx = self.column_of(far as int);
        let by = self.row_of(far as int);
        self.is_link(from, edge) && self.is_junction(bx, by) && (by < y || (by == y && bx < x))
    }

    /// The id of the vertex in column `x` that `row` names, if it names one.
    pub open spec fn anchor_in_column(&self, x: int, row: int) -> Option<usize> {
        if row >= 0 {
            Some(self.id_of(x, row) as usize)
        } else {
            None
        }
    }

    /// The id of the vertex in row `y` that `column` names, if it names one.
    pub open spec fn anchor_in_row(&self, column: int, y: int) -> Option<usize> {
        if column >= 0 {
            Some(self.id_of(column, y) as usize)
        } else {
            None
        }
    }

    /// The vertex to the left of `(x, y)` lies in the grid, left of `x`.
    pub proof fn left_anchor_is_junction(&self, x: int, y: int)
        ensures
            -1 <= self.left_anchor(x, y),
            self.left_anchor(x, y) >= 0 ==> self.left_anchor(x, y) < x && self.is_junction(
                self.left_anchor(x, y),
                y,
            ),
        decreases x,
    {
        if x > 1 && !self.is_junction(x - 1, y) && self.passable(x - 1, y) {
            self.left_anchor_is_junction(x - 1, y);
        }
    }

    /// The vertex above lies in an inner column, at or above row `y`, and is
    /// the entry or a junction.
    pub proof fn anchor_after_is_vertex(&self, x: int, y: int)
        ensures
            -1 <= self.anchor_after(x, y) <= y || y < -1,
            self.anchor_after(x, y) >= 0 ==> self.inner_column(x) && (self.is_junction(
                x,
                self.anchor_after(x, y),
            ) || (self.anchor_after(x, y) == 0 && self.is_first_open(x, 0))),
        decreases y,
    {
        if y > 0 && !self.is_junction(x, y) && self.passable(x, y) {
            self.anchor_after_is_vertex(x, y - 1);
        }
    }
    /// The cells between a vertex and the vertex it is linked to on its left
    /// are passable.
    pub proof fn left_run_is_open(&self, x: int, y: int)
        ensures
            forall|c: int| 0 <= self.left_anchor(x, y) < c < x ==> self.passable(c, y),
        decreases x,
    {
        if x > 1 && !self.is_junction(x - 1, y) && self.passable(x - 1, y) {
            self.left_run_is_open(x - 1, y);
        }
    }

    /// The cells below the vertex that `anchor_after` names, down to row
    /// `y`, are passable, and so is that vertex.
    pub proof fn column_run_is_open(&self, x: int, y: int)
        ensures
            forall|r: int| 0 <= self.anchor_after(x, y) <= r <= y ==> self.passable(x, r),
        decreases y,
    {
        if y > 0 && !self.is_junction(x, y) && self.passable(x, y) {
            self.column_run_is_open(x, y - 1);
        }
    }

    /// What the graph gains when the sweep passes the junction at `(x, y)`:
    /// a link to the vertex on its left and one to the vertex above, where
    /// there is one.
    pub open spec fn with_junction(&self, adjacency: Adjacency, x: int, y: int) -> Adjacency {
        let here = self.id_of(x, y) as usize;
        let left = self.left_anchor(x, y);
        let above = self.anchor_after(x, y - 1);
        let sideways = if left >= 0 {
            with_link(
                adjacency,
                self.id_of(left, y) as usize,
                here,
                (x - left) as usize,
                Direction::Right,
            )
        } else {
            adjacency
        };
        if above >= 0 {
            with_link(
                sideways,
                self.id_of(x, above) as usize,
                here,
                (y - above) as usize,
                Direction::Down,
            )
        } else {
            sideways
        }
    }

    /// What the graph gains when the exit is found in column `x` of the
    /// bottom row: a link to the vertex above it, if there is one.
    pub open spec fn with_exit(&self, adjacency: Adjacency, x: int) -> Adjacency {
        let bottom = self.spec_height() - 1;
        let above = self.anchor_after(x, self.last_anchor_row());
        if above >= 0 {
            with_link(
                adjacency,
                self.id_of(x, above) as usize,
                self.id_of(x, bottom) as usize,
                (bottom - above) as usize,
                Direction::Down,
            )
        } else {
            adjacency
        }
    }

    /// The graph after the sweep has passed the cells of row `y` left of
    /// column `x`, from `adjacency` at the beginning of the row.
    pub open spec fn swept_row(&self, adjacency: Adjacency, x: int, y: int) -> Adjacency
        decreases x,
    {
        if x <= 1 {
            adjacency
        } else {
            let before = self.swept_row(adjacency, x - 1, y);
            if self.is_junction(x - 1, y) {
                self.with_junction(before, x - 1, y)
            } else {
                before
            }
        }
    }

    /// The graph after the sweep has passed the rows above row `y`.
    pub open spec fn swept(&self, y: int) -> Adjacency
        decreases y,
    {
        if y <= 1 {
            Map::empty()
        } else {
            self.swept_row(self.swept(y - 1), self.spec_width() - 1, y - 1)
        }
    }

    /// The leftmost passable inner column of row `y`, where there is one.
    pub open spec fn first_open_column(&self, y: int) -> int {
        choose|x: int| self.is_first_open(x, y)
    }

    /// The graph of the maze: what the sweep over the inner rows, from the
    /// top down and each from the left, and the link of the exit make of
    /// the empty graph.
    pub open spec fn scanned(&self) -> Adjacency {
        let rows = if self.spec_height() >= 2 {
            self.spec_height() - 1
        } else {
            1
        };
        self.with_exit(self.swept(rows), self.first_open_column(self.spec_height() - 1))
    }

    /// Passing a junction adds exactly the links that end at it.
    pub proof fn junction_closes_links(&self, adjacency: Adjacency, x: int, y: int)
        requires
            self.wf(),
            self.is_junction(x, y),
            edges_are_distinct(adjacency),
            forall|from: usize, edge: Edge| #[trigger]
                has_edge(adjacency, from, edge) <==> self.is_swept_link(from, edge, x, y),
        ensures
            edges_are_distinct(self.with_junction(adjacency, x, y)),
            forall|from: usize, edge: Edge| #[trigger]
                has_edge(self.with_junction(adjacency, x, y), from, edge) <==> self.is_swept_link(
                    from,
                    edge,
                    x + 1,
                    y,
                ),
    {
        self.grid_is_bounded();
        let here = self.id_of(x, y) as usize;
        let left = self.left_anchor(x, y);
        let above = self.anchor_after(x, y - 1);
        let left_id = self.id_of(left, y) as usize;
        let above_id = self.id_of(x, above) as usize;
        let right_edge = Edge { to: here, weight: (x - left) as usize, direction: Direction::Right };
        let left_edge = Edge { to: left_id, weight: (x - left) as usize, direction: Direction::Left };
        let down_edge = Edge { to: here, weight: (y - above) as usize, direction: Direction::Down };
        let up_edge = Edge { to: above_id, weight: (y - above) as usize, direction: Direction::Up };
        self.id_in_area(x, y);
        self.coord_of_id(x, y);
        self.left_anchor_is_junction(x, y);
        self.anchor_after_is_vertex(x, y - 1);
        if left >= 0 {
            self.id_in_area(left, y);
            self.coord_of_id(left, y);
        }
        if above >= 0 {
            self.id_in_area(x, above);
            self.coord_of_id(x, above);
        }
        let sideways = if left >= 0 {
            with_link(adjacency, left_id, here, (x - left) as usize, Direction::Right)
        } else {
            adjacency
        };
        let done = self.with_junction(adjacency, x, y);
        if left >= 0 {
            edges_after_link(adjacency, left_id, here, (x - left) as usize, Direction::Right);
        }
        if above >= 0 {
            edges_after_link(sideways, above_id, here, (y - above) as usize, Direction::Down);
        }
        assert forall|from: usize, edge: Edge| #[trigger]
            has_edge(done, from, edge) <==> self.is_swept_link(from, edge, x + 1, y) by {
            let near = Self::near_end(from, edge);
            let far = Self::far_end(from, edge);
            if self.is_link(from, edge) {
                self.id_of_coord(near as int);
                self.id_of_coord(far as int);
            }
            let fresh = (left >= 0 && ((from == left_id && edge == right_edge) || (from == here
                && edge == left_edge))) || (above >= 0 && ((from == above_id && edge == down_edge)
                || (from == here && edge == up_edge)));
            assert(has_edge(done, from, edge) <==> has_edge(adjacency, from, edge) || fresh);
            let ends_here = self.is_link(from, edge) && self.column_of(far as int) == x
                && self.row_of(far as int) == y;
            assert(self.is_swept_link(from, edge, x + 1, y) <==> self.is_swept_link(from, edge, x, y)
                || ends_here);
            assert(fresh <==> ends_here);
        }
        assert(!has_edge(adjacency, left_id, right_edge)) by {
            if has_edge(adjacency, left_id, right_edge) {
                assert(self.is_swept_link(left_id, right_edge, x, y));
            }
        }
        assert(!has_edge(adjacency, here, left_edge)) by {
            if has_edge(adjacency, here, left_edge) {
                assert(self.is_swept_link(here, left_edge, x, y));
            }
        }
        assert(!has_edge(sideways, above_id, down_edge)) by {
            if has_edge(adjacency, above_id, down_edge) {
                assert(self.is_swept_link(above_id, down_edge, x, y));
            }
        }
        assert(!has_edge(sideways, here, up_edge)) by {
            if has_edge(adjacency, here, up_edge) {
                assert(self.is_swept_link(here, up_edge, x, y));
            }
        }
    }

    /// Finding the exit adds exactly the link that ends at it, which
    /// completes the links of the maze.
    pub proof fn exit_closes_links(&self, adjacency: Adjacency, x: int)
        requires
            self.wf(),
            self.is_first_open(x, self.spec_height() - 1),
            edges_are_distinct(adjacency),
            forall|from: usize, edge: Edge| #[trigger]
                has_edge(adjacency, from, edge) <==> self.is_link(from, edge) && self.is_junction(
                    self.column_of(Self::far_end(from, edge) as int),
                    self.row_of(Self::far_end(from, edge) as int),
                ),
        ensures
            edges_are_distinct(self.with_exit(adjacency, x)),
            forall|from: usize, edge: Edge| #[trigger]
                has_edge(self.with_exit(adjacency, x), from, edge) <==> self.is_link(from, edge),
    {
        self.grid_is_bounded();
        let bottom = self.spec_height() - 1;
        let here = self.id_of(x, bottom) as usize;
        let above = self.anchor_after(x, self.last_anchor_row());
        let above_id = self.id_of(x, above) as usize;
        let down_edge = Edge {
            to: here,
            weight: (bottom - above) as usize,
            direction: Direction::Down,
        };
        let up_edge = Edge {
            to: above_id,
            weight: (bottom - above) as usize,
            direction: Direction::Up,
        };
        self.id_in_area(x, bottom);
        self.coord_of_id(x, bottom);
        self.anchor_after_is_vertex(x, self.last_anchor_row());
        if above >= 0 {
            self.id_in_area(x, above);
            self.coord_of_id(x, above);
            edges_after_link(adjacency, above_id, here, (bottom - above) as usize, Direction::Down);
        }
        let done = self.with_exit(adjacency, x);
        assert forall|from: usize, edge: Edge| #[trigger]
            has_edge(done, from, edge) <==> self.is_link(from, edge) by {
            let near = Self::near_end(from, edge);
            let far = Self::far_end(from, edge);
            if self.is_link(from, edge) {
                self.id_of_coord(near as int);
                self.id_of_coord(far as int);
            }
            let fresh = above >= 0 && ((from == above_id && edge == down_edge) || (from == here
                && edge == up_edge));
            assert(has_edge(done, from, edge) <==> has_edge(adjacency, from, edge) || fresh);
            let at_exit = self.is_link(from, edge) && !self.is_junction(
                self.column_of(far as int),
                self.row_of(far as int),
            );
            assert(fresh <==> at_exit);
        }
        assert(!has_edge(adjacency, above_id, down_edge));
        assert(!has_edge(adjacency, here, up_edge));
    }

    /// What `parse` finds: the entry is the first passable inner cell of the
    /// top row, the exit that of the bottom row, and the graph holds, once
    /// each, the two edges of every link of the maze, and no other edge.
    pub open spec fn scanned_as(&self, adjacency: Adjacency, start: usize, end: usize) -> bool {
        &&& start < self.area()
        &&& end < self.area()
        &&& self.row_of(start as int) == 0
        &&& self.is_first_open(self.column_of(start as int), 0)
        &&& self.row_of(end as int) == self.spec_height() - 1
        &&& self.is_first_open(self.column_of(end as int), self.spec_height() - 1)
        &&& edges_are_distinct(adjacency)
        &&& forall|from: usize, edge: Edge| #[trigger]
            has_edge(adjacency, from, edge) <==> self.is_link(from, edge)
    }
    /// The leftmost passable inner column of row `y`.
    fn first_open(&self, y: usize) -> (found: Option<usize>)
        requires
            y < self.spec_height(),
        ensures
            found.is_some() == self.has_open(y as int),
            found.is_some() ==> self.is_first_open(found.unwrap() as int, y as int),
    {
        let width = self.width();
        if width < 3 {
            return None;
        }
        let mut x: usize = 1;
        while x < width - 1
            invariant
                1 <= x < width,
                width == self.spec_width(),
                y < self.spec_height(),
                forall|c: int| 1 <= c < x ==> !self.passable(c, y as int),
            decreases width - x,
        {
            if self.is_path(x, y) {
                assert(self.inner_column(x as int) && self.passable(x as int, y as int));
                return Some(x);
            }
            x += 1;
        }
        None
    }

    /// Whether the passable region turns or branches at the inner cell
    /// `(x, y)`.
    fn dir_change(&self, x: usize, y: usize) -> (turn: bool)
        requires
            self.inner_column(x as int),
            self.inner_row(y as int),
        ensures
            turn == self.is_turn(x as int, y as int),
    {
        let up = self.is_path(x, y - 1);
        let down = self.is_path(x, y + 1);
        let left = self.is_path(x - 1, y);
        let right = self.is_path(x + 1, y);
        up != down || left != right || (up && down && left && right)
    }

    /// Scans the maze into a graph. The entry is the first passable inner
    /// cell of the top row and the exit that of the bottom row; without
    /// either there is nothing to solve and nothing is returned.
    pub fn parse(&self) -> (parsed: Option<(Graph, usize, usize)>)
        ensures
            parsed.is_some() == (self.has_open(0) && self.has_open(self.spec_height() - 1)),
            parsed.is_some() ==> self.scanned_as(
                parsed.unwrap().0@,
                parsed.unwrap().1,
                parsed.unwrap().2,
            ),
            parsed.is_some() ==> parsed.unwrap().0@ == self.scanned(),
            parsed.is_some() ==> parsed.unwrap().0.tallied(),
    {
        proof {
            use_type_invariant(self);
            self.grid_is_bounded();
        }
        let width = self.width();
        let height = self.height();
        if height == 0 {
            return None;
        }
        let entry = match self.first_open(0) {
            Some(entry) => entry,
            None => {
                return None;
            },
        };
        let start = self.to_index(entry, 0);
        proof {
            self.coord_of_id(entry as int, 0);
        }
        let mut graph = Graph::new();
        let mut prevline: Vec<Option<usize>> = Vec::new();
        let mut c: usize = 0;
        while c < width
            invariant
                c <= width,
                width == self.spec_width(),
                self.is_first_open(entry as int, 0),
                start == self.id_of(entry as int, 0),
                prevline@.len() == c,
                forall|k: int|
                    0 <= k < c ==> #[trigger] prevline@[k] == self.anchor_in_column(
                        k,
                        self.anchor_after(k, 0),
                    ),
            decreases width - c,
        {
            if c == entry {
                prevline.push(Some(start));
            } else {
                prevline.push(None);
            }
            c += 1;
        }
        let mut y: usize = 1;
        while y < height - 1
            invariant
                self.wf(),
                1 <= y,
                y + 1 <= height || y == 1,
                1 <= height,
                3 <= width == self.spec_width(),
                height == self.spec_height(),
                prevline@.len() == width,
                forall|k: int|
                    0 <= k < width ==> #[trigger] prevline@[k] == self.anchor_in_column(
                        k,
                        self.anchor_after(k, y - 1),
                    ),
                edges_are_distinct(graph@),
                graph.tallied(),
                graph@ == self.swept(y as int),
                forall|from: usize, edge: Edge| #[trigger]
                    has_edge(graph@, from, edge) <==> self.is_swept_link(from, edge, 0, y as int),
            decreases height - y,
        {
            let mut prev: Option<usize> = None;
            let mut x: usize = 1;
            let ghost above = graph@;
            proof {
                self.anchor_after_is_vertex(0, y as int);
                self.anchor_after_is_vertex(0, y - 1);
            }
            while x < width - 1
                invariant
                    self.wf(),
                    1 <= x < width,
                    1 <= y,
                    y + 1 < height,
                    width == self.spec_width(),
                    height == self.spec_height(),
                    prevline@.len() == width,
                    prev == self.anchor_in_row(self.left_anchor(x as int, y as int), y as int),
                    forall|k: int|
                        0 <= k < x ==> #[trigger] prevline@[k] == self.anchor_in_column(
                            k,
                            self.anchor_after(k, y as int),
                        ),
                    forall|k: int|
                        x <= k < width ==> #[trigger] prevline@[k] == self.anchor_in_column(
                            k,
                            self.anchor_after(k, y - 1),
                        ),
                    edges_are_distinct(graph@),
                    graph.tallied(),
                    above == self.swept(y as int),
                    graph@ == self.swept_row(above, x as int, y as int),
                    forall|from: usize, edge: Edge| #[trigger]
                        has_edge(graph@, from, edge) <==> self.is_swept_link(
                            from,
                            edge,
                            x as int,
                            y as int,
                        ),
                decreases width - x,
            {
                let ghost before = graph@;
                proof {
                    self.grid_is_bounded();
                    self.left_anchor_is_junction(x as int, y as int);
                    self.anchor_after_is_vertex(x as int, y - 1);
                }
                if self.is_path(x, y) {
                    if self.dir_change(x, y) {
                        let cur = self.to_index(x, y);
                        if let Some(prev_vertex) = prev {
                            let weight = cur - prev_vertex;
                            graph.add_edge(prev_vertex, cur, weight, Direction::Right);
                        }
                        if let Some(prevline_vertex) = prevline[x] {
                            proof {
                                let above = self.anchor_after(x as int, y - 1);
                                self.id_in_area(x as int, above);
                                self.coord_of_id(x as int, above);
                            }
                            let (_, py) = self.to_coord(prevline_vertex);
                            let weight = y - py;
                            graph.add_edge(prevline_vertex, cur, weight, Direction::Down);
                        }
                        proof {
                            assert(graph@ == self.with_junction(before, x as int, y as int));
                            self.junction_closes_links(before, x as int, y as int);
                        }
                        prev = Some(cur);
                        prevline.set(x, Some(cur));
                    }
                } else {
                    prev = None;
                    prevline.set(x, None);
                }
                x += 1;
            }
            proof {
                self.anchor_after_is_vertex(width - 1, y as int);
                self.anchor_after_is_vertex(width - 1, y - 1);
            }
            y += 1;
        }
        let bottom = height - 1;
        let exit = match self.first_open(bottom) {
            Some(exit) => exit,
            None => {
                return None;
            },
        };
        let end = self.to_index(exit, bottom);
        let ghost before = graph@;
        if let Some(prevline_vertex) = prevline[exit] {
            proof {
                let above = self.anchor_after(exit as int, self.last_anchor_row());
                self.anchor_after_is_vertex(exit as int, self.last_anchor_row());
                self.id_in_area(exit as int, above);
                self.coord_of_id(exit as int, above);
            }
            let (_, py) = self.to_coord(prevline_vertex);
            let weight = bottom - py;
            graph.add_edge(prevline_vertex, end, weight, Direction::Down);
        }
        proof {
            assert(self.first_open_column(bottom as int) == exit) by {
                let column = self.first_open_column(bottom as int);
                assert(self.is_first_open(exit as int, bottom as int));
                assert(self.is_first_open(column, bottom as int));
            }
            assert(graph@ == self.with_exit(before, exit as int));
            self.exit_closes_links(before, exit as int);
            self.coord_of_id(exit as int, bottom as int);
            assert(self.has_open(0));
        }
        Some((graph, start, end))
    }
}

} // verus!
