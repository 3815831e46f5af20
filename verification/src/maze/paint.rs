//! Painting what a search explored and found onto the maze, and the
//! palette canvas that an animation starts from.

use crate::graph::Graph;
use crate::maze::{Color, Maze};
use crate::solver::search::Context;
use vstd::prelude::*;

verus! {

/// The colour of the vertices a search expanded.
pub open spec fn visited_color() -> Color {
    (0u8, 255u8, 0u8)
}

/// The colour of the route.
pub open spec fn route_color() -> Color {
    (255u8, 0u8, 0u8)
}

/// The colour of the two ends of the route.
pub open spec fn terminal_color() -> Color {
    (0u8, 0u8, 255u8)
}

impl Maze {
    /// The colour of the cell `(x, y)` once a search is painted: the ends
    /// of the route lie over the route, the route over the expanded
    /// vertices, and those over the maze as it was.
    pub open spec fn explored(
        &self,
        start: usize,
        end: usize,
        trail: Seq<usize>,
        visited: Seq<usize>,
        x: int,
        y: int,
    ) -> Color {
        let id = self.id_of(x, y) as usize;
        if id == start || id == end {
            terminal_color()
        } else if trail.contains(id) {
            route_color()
        } else if visited.contains(id) {
            visited_color()
        } else {
            self.rows()[y][x]
        }
    }

    /// Paints a finished search onto the maze: the expanded vertices, then
    /// the trail of the route that was found, then its two ends.
    pub fn png_explore(&mut self, graph: &Graph, context: &Context)
        requires
            context.path.is_some(),
            context.path.unwrap()@.len() > 0,
            context.path.unwrap()@[0] < old(self).area(),
            old(self).routable(graph@, context.path.unwrap()@),
            forall|i: int|
                0 <= i < context.visited@.len() ==> context.visited@[i] < old(self).area(),
            context.start < old(self).area(),
            context.end < old(self).area(),
        ensures
            final(self).wf(),
            final(self).spec_width() == old(self).spec_width(),
            final(self).spec_height() == old(self).spec_height(),
            forall|x: int, y: int|
                old(self).in_grid(x, y) ==> (#[trigger] final(self).rows()[y][x]) == old(
                    self,
                ).explored(
                    context.start,
                    context.end,
                    old(self).trail(graph@, context.path.unwrap()@),
                    context.visited@,
                    x,
                    y,
                ),
    {
        proof {
            use_type_invariant(&*self);
            self.trail_is_connected(graph@, context.path.unwrap()@);
        }
        let full = match &context.path {
            Some(path) => self.full_path(graph, path.as_slice()),
            None => Vec::new(),
        };
        self.draw_path(context.visited.as_slice(), (0, 255, 0));
        self.draw_path(full.as_slice(), (255, 0, 0));
        self.draw(context.start, (0, 0, 255));
        self.draw(context.end, (0, 0, 255));
        proof {
            assert forall|x: int, y: int| old(self).in_grid(x, y) implies (
            #[trigger] self.rows()[y][x]) == old(self).explored(
                context.start,
                context.end,
                old(self).trail(graph@, context.path.unwrap()@),
                context.visited@,
                x,
                y,
            ) by {
                old(self).id_in_area(x, y);
            }
        }
    }

    /// The maze as palette indices, one for each cell in the order of the
    /// ids: 0 for a passable cell and 1 for a wall.
    pub fn canvas(&self) -> (cells: Vec<u8>)
        ensures
            cells@.len() == self.area(),
            forall|x: int, y: int|
                self.in_grid(x, y) ==> #[trigger] cells@[self.id_of(x, y)] == if self.passable(x, y) {
                    0u8
                } else {
                    1u8
                },
    {
        proof {
            use_type_invariant(self);
            self.grid_is_bounded();
        }
        let width = self.width();
        let height = self.height();
        let mut cells: Vec<u8> = Vec::new();
        let mut y: usize = 0;
        while y < height
            invariant
                self.wf(),
                y <= height,
                width == self.spec_width(),
                height == self.spec_height(),
                cells@.len() == y * width,
                forall|cx: int, cy: int|
                    0 <= cx < width && 0 <= cy < y ==> #[trigger] cells@[self.id_of(cx, cy)]
                        == if self.passable(cx, cy) {
                        0u8
                    } else {
                        1u8
                    },
            decreases height - y,
        {
            let mut x: usize = 0;
            while x < width
                invariant
                    self.wf(),
                    y < height,
                    x <= width,
                    width == self.spec_width(),
                    height == self.spec_height(),
                    cells@.len() == y * width + x,
                    forall|cx: int, cy: int|
                        0 <= cx < width && 0 <= cy < height && (cy < y || (cy == y && cx < x))
                            ==> #[trigger] cells@[self.id_of(cx, cy)] == if self.passable(cx, cy) {
                            0u8
                        } else {
                            1u8
                        },
                decreases width - x,
            {
                let ghost before = cells@;
                if self.is_path(x, y) {
                    cells.push(0);
                } else {
                    cells.push(1);
                }
                proof {
                    assert forall|cx: int, cy: int|
                        0 <= cx < width && 0 <= cy < height && (cy < y || (cy == y && cx < x + 1))
                        implies #[trigger] cells@[self.id_of(cx, cy)] == if self.passable(cx, cy) {
                        0u8
                    } else {
                        1u8
                    } by {
                        if cy < y || cx < x {
                            assert(self.id_of(cx, cy) < y * width + x) by (nonlinear_arith)
                                requires
                                    0 <= cx < width,
                                    0 <= cy,
                                    cy < y || (cy == y && cx < x),
                                    self.id_of(cx, cy) == cy * width + cx,
                            ;
                            assert(0 <= self.id_of(cx, cy)) by (nonlinear_arith)
                                requires
                                    0 <= cx,
                                    0 <= cy,
                                    0 <= width,
                                    self.id_of(cx, cy) == cy * width + cx,
                            ;
                            assert(cells@[self.id_of(cx, cy)] == before[self.id_of(cx, cy)]);
                        }
                    }
                }
                x += 1;
            }
            proof {
                assert((y + 1) * width == y * width + width) by (nonlinear_arith);
            }
            y += 1;
        }
        proof {
            assert(height * width == width * height) by (nonlinear_arith);
        }
        cells
    }
}

} // verus!
