//! The scoring functions that turn the search engine into depth-first,
//! uniform-cost, greedy or A* search.

use crate::graph::{has_edge, Adjacency, Edge};
use crate::maze::Maze;
use crate::solver::search::{is_consistent, scores_as, Score};
use vstd::prelude::*;

verus! {

/// The score that is zero everywhere, as `dfs_heuristic` gives it.
pub open spec fn zero_score() -> Score {
    |node: usize, dist: usize, target: usize| 0usize
}

/// Scores every vertex alike, so that the vertex found last is expanded
/// first.
pub fn dfs_heuristic(_node: usize, _dist: usize, _target: usize) -> (score: usize)
    ensures
        score == 0,
{
    0
}

/// Scores a vertex by the distance walked to it, which makes the search
/// uniform-cost search.
pub fn dijkstra_heuristic(_node: usize, dist: usize, _target: usize) -> (score: usize)
    ensures
        score == dist,
{
    dist
}

/// The sum of `a` and `b`, or the largest number if the sum is larger.
pub open spec fn capped_sum(a: int, b: int) -> int {
    if a + b > usize::MAX {
        usize::MAX as int
    } else {
        a + b
    }
}

/// The distance between two numbers.
pub open spec fn gap(a: int, b: int) -> int {
    if a > b {
        a - b
    } else {
        b - a
    }
}

impl Maze {
    /// The number of steps between the cells `node` and `target` when no
    /// wall is in the way: the distance between their columns plus that
    /// between their rows, capped at the largest number.
    pub open spec fn manhattan(&self, node: usize, target: usize) -> int {
        capped_sum(
            gap(self.column_of(node as int), self.column_of(target as int)),
            gap(self.row_of(node as int), self.row_of(target as int)),
        )
    }

    /// The score of greedy search: the steps to the target, walls aside.
    pub open spec fn greedy_score(&self) -> Score {
        |node: usize, dist: usize, target: usize| self.manhattan(node, target) as usize
    }

    /// The score of A* search: the distance walked plus the steps to the
    /// target, walls aside, capped at the largest number.
    pub open spec fn astar_score(&self) -> Score {
        |node: usize, dist: usize, target: usize|
            capped_sum(self.manhattan(node, target), dist as int) as usize
    }

    /// The steps between two cells, walls aside.
    pub fn steps_between(&self, node: usize, target: usize) -> (steps: usize)
        requires
            self.spec_width() > 0,
        ensures
            steps == self.manhattan(node, target),
    {
        let (nx, ny) = self.to_coord(node);
        let (tx, ty) = self.to_coord(target);
        let dx = if nx > tx {
            nx - tx
        } else {
            tx - nx
        };
        let dy = if ny > ty {
            ny - ty
        } else {
            ty - ny
        };
        dx.saturating_add(dy)
    }
}

impl Maze {
    /// In the graph of a scanned maze the steps to the exit, walls aside,
    /// never overrate what is left of the way: the search scored by
    /// `astar_heuristic` finds a cheapest route.
    pub proof fn manhattan_is_consistent(&self, graph: Adjacency, start: usize, end: usize)
        requires
            self.wf(),
            self.spec_height() >= 2,
            self.scanned_as(graph, start, end),
        ensures
            is_consistent(graph, end, |vertex: usize| self.manhattan(vertex, end)),
    {
        let estimate = |vertex: usize| self.manhattan(vertex, end);
        assert forall|from: usize, edge: Edge| #[trigger] has_edge(graph, from, edge) implies estimate(
            from,
        ) <= edge.weight + estimate(edge.to) by {
            self.links_lead_straight(from, edge);
            self.link_is_open(from, edge);
        }
    }
}

/// Scores a vertex by its distance from the target alone, walls aside:
/// greedy best-first search, which need not find the cheapest route.
pub fn greedy_heuristic(maze: &Maze) -> (heuristic: impl Fn(usize, usize, usize) -> usize + '_)
    requires
        maze.spec_width() > 0,
    ensures
        forall|node: usize, dist: usize, target: usize|
            call_requires(heuristic, (node, dist, target)),
        forall|node: usize, dist: usize, target: usize, score: usize|
            call_ensures(heuristic, (node, dist, target), score) ==> score == maze.manhattan(
                node,
                target,
            ),
        scores_as(heuristic, maze.greedy_score()),
{
    move |node: usize, _dist: usize, target: usize| -> (score: usize)
        ensures
            score == maze.manhattan(node, target),
        { maze.steps_between(node, target) }
}

/// Scores a vertex by the distance walked plus its distance from the
/// target, walls aside: A* search.
pub fn astar_heuristic(maze: &Maze) -> (heuristic: impl Fn(usize, usize, usize) -> usize + '_)
    requires
        maze.spec_width() > 0,
    ensures
        forall|node: usize, dist: usize, target: usize|
            call_requires(heuristic, (node, dist, target)),
        forall|node: usize, dist: usize, target: usize, score: usize|
            call_ensures(heuristic, (node, dist, target), score) ==> score == capped_sum(
                maze.manhattan(node, target),
                dist as int,
            ),
        scores_as(heuristic, maze.astar_score()),
{
    move |node: usize, dist: usize, target: usize| -> (score: usize)
        ensures
            score == capped_sum(maze.manhattan(node, target), dist as int),
        {
            let man = maze.steps_between(node, target);
            man.saturating_add(dist)
        }
}

} // verus!
