use labyrinth::dfs::{dfs, reconstruct_path};
use labyrinth::dijkstra::dijkstra;
use labyrinth::graph::{Direction, Graph};
use labyrinth::maze::Maze;
use labyrinth::solver::frontier::{Frontier, Node};
use labyrinth::solver::heuristic::{
    astar_heuristic, dfs_heuristic, dijkstra_heuristic, greedy_heuristic,
};
use labyrinth::solver::search::{reconstruct, search, Context};
use std::collections::{HashMap, VecDeque};

fn grid_from(rows: &[&str]) -> Maze {
    let height = rows.len() as u32;
    let width = rows[0].len() as u32;
    let mut bytes = Vec::new();
    for row in rows {
        for cell in row.chars() {
            let level = if cell == '#' { 0 } else { 255 };
            bytes.push(level);
            bytes.push(level);
            bytes.push(level);
        }
    }
    Maze::new(width, height, bytes).unwrap()
}

fn deceptive() -> Maze {
    grid_from(&[
        "#####.#####",
        "###...#####",
        "###.#.#####",
        "###.#.#####",
        "###.#.#####",
        "###.#.....#",
        "###.#####.#",
        "###.......#",
        "#####.#####",
    ])
}

fn weight_of(graph: &Graph, path: &[usize]) -> usize {
    path.windows(2).map(|pair| graph.get_edge(pair[0], pair[1]).unwrap().weight).sum()
}

fn steps_on_the_grid(maze: &Maze, start: usize, end: usize) -> Option<usize> {
    let mut steps: HashMap<usize, usize> = HashMap::new();
    let mut queue = VecDeque::new();
    steps.insert(start, 0);
    queue.push_back(start);
    while let Some(cell) = queue.pop_front() {
        if cell == end {
            return Some(steps[&cell]);
        }
        let (x, y) = maze.to_coord(cell);
        let mut around = Vec::new();
        if x > 0 {
            around.push((x - 1, y));
        }
        if y > 0 {
            around.push((x, y - 1));
        }
        if x + 1 < maze.width() {
            around.push((x + 1, y));
        }
        if y + 1 < maze.height() {
            around.push((x, y + 1));
        }
        for (nx, ny) in around {
            let next = maze.to_index(nx, ny);
            if maze.is_path(nx, ny) && !steps.contains_key(&next) {
                steps.insert(next, steps[&cell] + 1);
                queue.push_back(next);
            }
        }
    }
    None
}

#[test]
fn frontier_hands_out_the_cheapest_first() {
    let mut frontier = Frontier::new();
    assert!(frontier.pop().is_none());
    frontier.push(Node { id: 1, cost: 5 });
    frontier.push(Node { id: 2, cost: 3 });
    frontier.push(Node { id: 3, cost: 9 });
    frontier.push(Node { id: 4, cost: 4 });
    assert_eq!(frontier.len(), 4);
    assert_eq!(frontier.pop(), Some(Node { id: 2, cost: 3 }));
    assert_eq!(frontier.pop(), Some(Node { id: 4, cost: 4 }));
    assert_eq!(frontier.pop(), Some(Node { id: 1, cost: 5 }));
    assert_eq!(frontier.pop(), Some(Node { id: 3, cost: 9 }));
    assert_eq!(frontier.pop(), None);
    assert_eq!(frontier.len(), 0);
}

#[test]
fn frontier_takes_the_latest_of_equal_entries() {
    let mut frontier = Frontier::new();
    frontier.push(Node { id: 1, cost: 2 });
    frontier.push(Node { id: 2, cost: 2 });
    frontier.push(Node { id: 3, cost: 7 });
    frontier.push(Node { id: 4, cost: 2 });
    assert_eq!(frontier.pop(), Some(Node { id: 4, cost: 2 }));
    assert_eq!(frontier.pop(), Some(Node { id: 2, cost: 2 }));
    assert_eq!(frontier.pop(), Some(Node { id: 1, cost: 2 }));
    assert_eq!(frontier.pop(), Some(Node { id: 3, cost: 7 }));
}

#[test]
fn heuristics_score_as_named() {
    assert_eq!(dfs_heuristic(3, 17, 9), 0);
    assert_eq!(dijkstra_heuristic(3, 17, 9), 17);
    let maze = deceptive();
    let greedy = greedy_heuristic(&maze);
    assert_eq!(greedy(5, 1000, 93), 8);
    assert_eq!(greedy(60, 0, 93), 3);
    assert_eq!(greedy(93, 4, 93), 0);
    let astar = astar_heuristic(&maze);
    assert_eq!(astar(5, 0, 93), 8);
    assert_eq!(astar(60, 5, 93), 8);
    assert_eq!(astar(14, 3, 93), 12);
    assert_eq!(astar(14, usize::MAX, 93), usize::MAX);
}

#[test]
fn reconstruct_follows_the_predecessors() {
    let mut prev = HashMap::new();
    prev.insert(9, 7);
    prev.insert(7, 4);
    prev.insert(4, 1);
    prev.insert(5, 1);
    assert_eq!(reconstruct(&prev, 1, 9), Some(vec![1, 4, 7, 9]));
    assert_eq!(reconstruct(&prev, 1, 5), Some(vec![1, 5]));
    assert_eq!(reconstruct(&prev, 1, 1), None);
    assert_eq!(reconstruct(&prev, 1, 8), None);
    assert_eq!(reconstruct_path(&prev, 1, 9), Some(vec![1, 4, 7, 9]));
    assert_eq!(reconstruct_path(&prev, 1, 8), None);
}

#[test]
fn reconstruct_puts_the_given_start_in_front() {
    let mut prev = HashMap::new();
    prev.insert(9, 7);
    assert_eq!(reconstruct(&prev, 3, 9), Some(vec![3, 9]));
}

#[test]
fn context_records_visits_and_path() {
    let mut context = Context::search(4, 8);
    assert_eq!(context.start, 4);
    assert_eq!(context.end, 8);
    assert!(context.path.is_none());
    assert!(context.visited.is_empty());
    context.visit(4);
    context.visit(6);
    assert_eq!(context.visited, vec![4, 6]);
    context.set_path(vec![4, 6, 8]);
    assert_eq!(context.path, Some(vec![4, 6, 8]));
}

#[test]
fn corridor_is_solved_by_every_heuristic() {
    let maze = grid_from(&["##.##", "##.##", "##.##", "##.##", "##.##"]);
    let (graph, start, end) = maze.parse().unwrap();
    let expected = Some(vec![maze.to_index(2, 0), maze.to_index(2, 4)]);
    assert_eq!(search(&graph, start, end, dfs_heuristic).path, expected);
    assert_eq!(search(&graph, start, end, dijkstra_heuristic).path, expected);
    assert_eq!(search(&graph, start, end, greedy_heuristic(&maze)).path, expected);
    assert_eq!(search(&graph, start, end, astar_heuristic(&maze)).path, expected);
    let context = search(&graph, start, end, dijkstra_heuristic);
    assert_eq!(context.start, start);
    assert_eq!(context.end, end);
    assert_eq!(context.visited, vec![start]);
    assert_eq!(dfs(&graph, start, end), expected);
    assert_eq!(dijkstra(&graph, start, end), expected);
}

#[test]
fn a_sealed_exit_yields_no_path_but_visits() {
    let maze = grid_from(&["##.##", "##.##", "#####", "##.##", "##.##"]);
    let (graph, start, end) = maze.parse().unwrap();
    let context = search(&graph, start, end, dijkstra_heuristic);
    assert!(context.path.is_none());
    assert_eq!(context.visited, vec![2, 7]);
    let context = search(&graph, start, end, astar_heuristic(&maze));
    assert!(context.path.is_none());
    assert!(!context.visited.is_empty());
    assert_eq!(context.visited[0], start);
    assert!(dfs(&graph, start, end).is_none());
    assert!(dijkstra(&graph, start, end).is_none());
}

#[test]
fn searching_from_a_vertex_to_itself() {
    let maze = deceptive();
    let (graph, start, _) = maze.parse().unwrap();
    let context = search(&graph, start, start, dijkstra_heuristic);
    assert!(context.path.is_none());
    assert!(context.visited.is_empty());
    assert!(dfs(&graph, start, start).is_none());
    assert_eq!(dijkstra(&graph, start, start), Some(vec![start]));
}

#[test]
fn dijkstra_finds_the_cheapest_route() {
    let maze = deceptive();
    let (graph, start, end) = maze.parse().unwrap();
    let context = search(&graph, start, end, dijkstra_heuristic);
    let path = context.path.unwrap();
    assert_eq!(path, vec![5, 16, 14, 80, 82, 93]);
    assert_eq!(weight_of(&graph, &path), 12);
    assert_eq!(steps_on_the_grid(&maze, start, end), Some(12));
    assert_eq!(dijkstra(&graph, start, end), Some(vec![5, 16, 14, 80, 82, 93]));
}

#[test]
fn dijkstra_weight_matches_the_grid_on_other_mazes() {
    let mazes = [
        grid_from(&["##.##", "##.##", "#...#", "##.##", "##.##"]),
        grid_from(&[
            "#.#######",
            "#.......#",
            "#.#####.#",
            "#.#...#.#",
            "#.#.#.#.#",
            "#...#...#",
            "#####.###",
        ]),
        grid_from(&[
            "###.#####",
            "#.......#",
            "#.#.###.#",
            "#.#.#...#",
            "#.###.#.#",
            "#.....#.#",
            "#######.#",
        ]),
    ];
    for maze in mazes.iter() {
        let (graph, start, end) = maze.parse().unwrap();
        let path = search(&graph, start, end, dijkstra_heuristic).path.unwrap();
        assert_eq!(path.first(), Some(&start));
        assert_eq!(path.last(), Some(&end));
        assert_eq!(Some(weight_of(&graph, &path)), steps_on_the_grid(maze, start, end));
        let other = search(&graph, start, end, astar_heuristic(maze)).path.unwrap();
        assert_eq!(weight_of(&graph, &other), weight_of(&graph, &path));
    }
}

#[test]
fn greedy_is_deceived_where_astar_is_not() {
    let maze = deceptive();
    let (graph, start, end) = maze.parse().unwrap();
    let greedy = search(&graph, start, end, greedy_heuristic(&maze)).path.unwrap();
    assert_eq!(greedy, vec![5, 16, 60, 64, 86, 82, 93]);
    assert_eq!(weight_of(&graph, &greedy), 16);
    let astar = search(&graph, start, end, astar_heuristic(&maze)).path.unwrap();
    assert_eq!(astar, vec![5, 16, 14, 80, 82, 93]);
    assert_eq!(weight_of(&graph, &astar), 12);
    assert!(weight_of(&graph, &greedy) > weight_of(&graph, &astar));
}

#[test]
fn visited_lists_the_expanded_vertices_in_order() {
    let maze = deceptive();
    let (graph, start, end) = maze.parse().unwrap();
    let greedy = search(&graph, start, end, greedy_heuristic(&maze));
    assert_eq!(greedy.visited, vec![5, 16, 60, 64, 86, 82]);
    let astar = search(&graph, start, end, astar_heuristic(&maze));
    assert_eq!(astar.visited, vec![5, 16, 60, 14, 80, 82]);
    assert!(!astar.visited.contains(&end));
}

#[test]
fn solving_twice_gives_the_same_answer() {
    let maze = deceptive();
    let (graph, start, end) = maze.parse().unwrap();
    let (again, start_again, end_again) = maze.parse().unwrap();
    assert_eq!(start, start_again);
    assert_eq!(end, end_again);
    let first = search(&graph, start, end, dijkstra_heuristic);
    let second = search(&again, start, end, dijkstra_heuristic);
    assert_eq!(first.path, second.path);
    assert_eq!(first.visited, second.visited);
    let first = search(&graph, start, end, dfs_heuristic);
    let second = search(&graph, start, end, dfs_heuristic);
    assert_eq!(first.path, second.path);
    assert_eq!(first.path.is_some(), second.path.is_some());
}

#[test]
fn zero_heuristic_finds_some_route() {
    let maze = deceptive();
    let (graph, start, end) = maze.parse().unwrap();
    let path = search(&graph, start, end, dfs_heuristic).path.unwrap();
    assert_eq!(path.first(), Some(&start));
    assert_eq!(path.last(), Some(&end));
    for pair in path.windows(2) {
        assert!(graph.get_edge(pair[0], pair[1]).is_some());
    }
    let path = dfs(&graph, start, end).unwrap();
    assert_eq!(path.first(), Some(&start));
    assert_eq!(path.last(), Some(&end));
    for pair in path.windows(2) {
        assert!(graph.get_edge(pair[0], pair[1]).is_some());
    }
}

#[test]
fn a_distance_beyond_usize_is_no_distance() {
    let mut graph = Graph::new();
    graph.add_directed_edge(0, 1, usize::MAX - 1, Direction::Right);
    graph.add_directed_edge(1, 2, 1, Direction::Right);
    graph.add_directed_edge(1, 3, 5, Direction::Right);
    let near = search(&graph, 0, 1, dijkstra_heuristic);
    assert_eq!(near.path, Some(vec![0, 1]));
    let edge = search(&graph, 0, 2, dijkstra_heuristic);
    assert_eq!(edge.path, Some(vec![0, 1, 2]));
    assert_eq!(dijkstra(&graph, 0, 2), Some(vec![0, 1, 2]));
    let far = search(&graph, 0, 3, dijkstra_heuristic);
    assert!(far.path.is_none());
    assert_eq!(far.visited, vec![0, 1, 2]);
    assert!(dijkstra(&graph, 0, 3).is_none());
}

#[test]
fn the_largest_weight_is_a_distance() {
    let mut graph = Graph::new();
    graph.add_directed_edge(1, 2, usize::MAX, Direction::Right);
    let context = search(&graph, 1, 2, dijkstra_heuristic);
    assert_eq!(context.path, Some(vec![1, 2]));
    assert_eq!(context.visited, vec![1]);
    assert_eq!(dijkstra(&graph, 1, 2), Some(vec![1, 2]));
    assert_eq!(search(&graph, 1, 2, dfs_heuristic).path, Some(vec![1, 2]));
}

#[test]
fn search_prefers_the_lighter_of_two_routes() {
    let mut graph = Graph::new();
    graph.add_edge(0, 1, 10, Direction::Right);
    graph.add_edge(0, 2, 1, Direction::Down);
    graph.add_edge(2, 3, 1, Direction::Right);
    graph.add_edge(3, 1, 1, Direction::Up);
    assert_eq!(search(&graph, 0, 1, dijkstra_heuristic).path, Some(vec![0, 2, 3, 1]));
    assert_eq!(dijkstra(&graph, 0, 1), Some(vec![0, 2, 3, 1]));
}

#[test]
fn solved_maze_expands_to_a_connected_trail() {
    let mut maze = deceptive();
    let (graph, start, end) = maze.parse().unwrap();
    let context = search(&graph, start, end, astar_heuristic(&maze));
    let path = context.path.unwrap();
    let trail = maze.full_path(&graph, &path);
    assert_eq!(trail.first(), Some(&context.start));
    assert_eq!(trail.last(), Some(&context.end));
    assert_eq!(trail.len(), 13);
    for pair in trail.windows(2) {
        let (ax, ay) = maze.to_coord(pair[0]);
        let (bx, by) = maze.to_coord(pair[1]);
        assert_eq!(ax.abs_diff(bx) + ay.abs_diff(by), 1);
    }
}

#[test]
fn a_way_along_the_border_is_not_scanned() {
    let maze = grid_from(&["#...#", "###.#", "###.#"]);
    let (graph, start, end) = maze.parse().unwrap();
    assert_eq!(start, 1);
    assert_eq!(end, 13);
    assert_eq!(steps_on_the_grid(&maze, start, end), Some(4));
    assert!(graph.get(&start).is_none());
    assert!(graph.get(&end).is_none());
    assert!(search(&graph, start, end, dijkstra_heuristic).path.is_none());
}

fn nine_links() -> Graph {
    let mut graph = Graph::new();
    graph.add_edge(11, 13, 2, Direction::Right);
    graph.add_edge(4, 13, 1, Direction::Down);
    graph.add_edge(13, 31, 2, Direction::Down);
    graph.add_edge(31, 34, 3, Direction::Right);
    graph.add_edge(11, 65, 6, Direction::Down);
    graph.add_edge(65, 67, 2, Direction::Right);
    graph.add_edge(67, 70, 3, Direction::Right);
    graph.add_edge(34, 70, 4, Direction::Down);
    graph.add_edge(67, 76, 1, Direction::Down);
    graph
}

fn blank(width: u32, height: u32) -> Maze {
    Maze::new(width, height, vec![255; 3 * (width * height) as usize]).unwrap()
}

#[test]
fn distance_scoring_on_nine_links() {
    let graph = nine_links();
    let context = search(&graph, 4, 76, dijkstra_heuristic);
    assert_eq!(context.path, Some(vec![4, 13, 11, 65, 67, 76]));
    assert_eq!(context.visited.len(), 8);
    assert_eq!(context.visited[0], 4);
    assert_eq!(dijkstra(&graph, 4, 76), Some(vec![4, 13, 11, 65, 67, 76]));
}

#[test]
fn greedy_scoring_on_nine_links() {
    let graph = nine_links();
    let maze = blank(9, 9);
    let context = search(&graph, 4, 76, greedy_heuristic(&maze));
    assert_eq!(context.path, Some(vec![4, 13, 31, 34, 70, 67, 76]));
    assert_eq!(context.visited, vec![4, 13, 31, 34, 70, 67]);
    let plain = search(&graph, 4, 76, |n: usize, _: usize, t: usize| {
        (n % 9).abs_diff(t % 9) + (n / 9).abs_diff(t / 9)
    });
    assert_eq!(plain.path, context.path);
    assert_eq!(plain.visited, context.visited);
}

#[test]
fn astar_scoring_on_nine_links() {
    let graph = nine_links();
    let maze = blank(9, 9);
    let context = search(&graph, 4, 76, astar_heuristic(&maze));
    assert_eq!(context.path, Some(vec![4, 13, 11, 65, 67, 76]));
    assert_eq!(context.visited, vec![4, 13, 31, 11, 65, 67]);
}

#[test]
fn an_unreachable_end_leaves_every_reachable_vertex_visited() {
    let mut graph = Graph::new();
    graph.add_edge(1, 2, 1, Direction::Right);
    let context = search(&graph, 1, 9, dijkstra_heuristic);
    assert_eq!(context.path, None);
    assert_eq!(context.visited, vec![1, 2]);
    assert_eq!(context.start, 1);
    assert_eq!(context.end, 9);
}

#[test]
fn one_link_is_solved_alike_by_every_scoring() {
    let mut graph = Graph::new();
    graph.add_edge(2, 22, 4, Direction::Down);
    let maze = blank(5, 5);
    let runs = [
        search(&graph, 2, 22, dfs_heuristic),
        search(&graph, 2, 22, dijkstra_heuristic),
        search(&graph, 2, 22, greedy_heuristic(&maze)),
        search(&graph, 2, 22, astar_heuristic(&maze)),
    ];
    for context in runs.iter() {
        assert_eq!(context.path, Some(vec![2, 22]));
        assert_eq!(context.visited, vec![2]);
        assert_eq!(context.start, 2);
        assert_eq!(context.end, 22);
    }
    assert_eq!(dfs(&graph, 2, 22), Some(vec![2, 22]));
}

#[test]
fn depth_first_search_takes_the_neighbour_found_last() {
    let mut graph = Graph::new();
    graph.add_edge(1, 2, 1, Direction::Right);
    graph.add_edge(1, 3, 1, Direction::Down);
    graph.add_edge(2, 4, 1, Direction::Down);
    graph.add_edge(3, 4, 1, Direction::Right);
    assert_eq!(dfs(&graph, 1, 4), Some(vec![1, 3, 4]));
}

#[test]
fn no_route_passes_a_vertex_twice() {
    let mut graph = Graph::new();
    graph.add_edge(1, 1, 0, Direction::Down);
    graph.add_edge(1, 2, 0, Direction::Right);
    graph.add_edge(2, 1, 0, Direction::Left);
    graph.add_edge(2, 3, 0, Direction::Right);
    for path in [
        search(&graph, 1, 3, dijkstra_heuristic).path.unwrap(),
        search(&graph, 1, 3, dfs_heuristic).path.unwrap(),
        dijkstra(&graph, 1, 3).unwrap(),
        dfs(&graph, 1, 3).unwrap(),
    ] {
        assert_eq!(path, vec![1, 2, 3]);
    }
}
