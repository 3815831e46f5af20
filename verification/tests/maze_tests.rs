use labyrinth::graph::{Direction, Edge};
use labyrinth::maze::Maze;
use labyrinth::solver::search::Context;

fn maze_from(rows: &[&str]) -> Maze {
    let height = rows.len() as u32;
    let width = rows[0].len() as u32;
    let mut bytes = Vec::new();
    for row in rows {
        assert_eq!(row.len() as u32, width);
        for cell in row.chars() {
            let level = if cell == '#' { 0 } else { 255 };
            bytes.push(level);
            bytes.push(level);
            bytes.push(level);
        }
    }
    Maze::new(width, height, bytes).unwrap()
}

fn corridor() -> Maze {
    maze_from(&["##.##", "##.##", "##.##", "##.##", "##.##"])
}

fn branching() -> Maze {
    maze_from(&[
        "#####.#####",
        "###...#####",
        "###.#.#####",
        "###.#.#####",
        "###.#.#####",
        "###.#.....#",
        "###.#####.#",
        "###.......#",
        "#####.#####",
    ])
}

#[test]
fn new_refuses_too_few_bytes() {
    assert!(Maze::new(2, 2, vec![255; 11]).is_none());
    assert!(Maze::new(2, 2, vec![255; 12]).is_some());
    assert!(Maze::new(0, 0, Vec::new()).is_some());
}

#[test]
fn new_keeps_the_dimensions() {
    let maze = Maze::new(3, 2, vec![255; 18]).unwrap();
    assert_eq!(maze.width(), 3);
    assert_eq!(maze.height(), 2);
}

#[test]
fn pixels_are_read_row_after_row() {
    let mut bytes = vec![0u8; 3 * 3 * 2];
    // the pixel in column 1 of row 1 of a grid three wide
    bytes[3 * (1 * 3 + 1)] = 9;
    bytes[3 * (1 * 3 + 1) + 1] = 8;
    bytes[3 * (1 * 3 + 1) + 2] = 7;
    let maze = Maze::new(3, 2, bytes).unwrap();
    assert!(maze.is_path(1, 1));
    assert!(!maze.is_path(1, 0));
    assert!(!maze.is_path(0, 1));
    assert!(!maze.is_path(2, 1));
}

#[test]
fn a_cell_with_a_zero_channel_is_a_wall() {
    let maze = Maze::new(4, 1, vec![255, 255, 255, 0, 255, 255, 255, 0, 255, 255, 255, 0]).unwrap();
    assert!(maze.is_path(0, 0));
    assert!(!maze.is_path(1, 0));
    assert!(!maze.is_path(2, 0));
    assert!(!maze.is_path(3, 0));
}

#[test]
fn ids_number_the_cells_row_after_row() {
    let maze = corridor();
    assert_eq!(maze.to_index(0, 0), 0);
    assert_eq!(maze.to_index(2, 0), 2);
    assert_eq!(maze.to_index(2, 4), 22);
    assert_eq!(maze.to_index(4, 4), 24);
    assert_eq!(maze.to_coord(22), (2, 4));
    assert_eq!(maze.to_coord(7), (2, 1));
}

#[test]
fn ids_and_coordinates_are_inverse() {
    let maze = branching();
    for y in 0..maze.height() {
        for x in 0..maze.width() {
            let id = maze.to_index(x, y);
            assert!(id < maze.width() * maze.height());
            assert_eq!(maze.to_coord(id), (x, y));
        }
    }
    for id in 0..maze.width() * maze.height() {
        let (x, y) = maze.to_coord(id);
        assert_eq!(maze.to_index(x, y), id);
    }
}

#[test]
fn draw_colours_one_cell() {
    let mut maze = corridor();
    maze.draw(7, (1, 2, 3));
    let bytes = maze.into_raw();
    assert_eq!(&bytes[21..24], &[1, 2, 3]);
    assert_eq!(&bytes[6..9], &[255, 255, 255]);
    assert_eq!(&bytes[18..21], &[0, 0, 0]);
    assert_eq!(bytes.len(), 75);
}

#[test]
fn draw_can_turn_a_wall_into_a_path() {
    let mut maze = corridor();
    assert!(!maze.is_path(1, 1));
    maze.draw(6, (10, 20, 30));
    assert!(maze.is_path(1, 1));
    maze.draw(7, (10, 0, 30));
    assert!(!maze.is_path(2, 1));
}

#[test]
fn draw_path_colours_each_listed_cell() {
    let mut maze = corridor();
    maze.draw_path(&[0, 24, 12, 0], (4, 5, 6));
    let bytes = maze.into_raw();
    for id in 0..25 {
        let pixel = &bytes[3 * id..3 * id + 3];
        if id == 0 || id == 12 || id == 24 {
            assert_eq!(pixel, &[4, 5, 6]);
        } else if id % 5 == 2 {
            assert_eq!(pixel, &[255, 255, 255]);
        } else {
            assert_eq!(pixel, &[0, 0, 0]);
        }
    }
}

#[test]
fn into_raw_gives_back_the_bytes() {
    let bytes: Vec<u8> = (0..24).collect();
    let maze = Maze::new(4, 2, bytes.clone()).unwrap();
    assert_eq!(maze.into_raw(), bytes);
}

#[test]
fn corridor_scans_to_two_vertices_and_one_link() {
    let maze = corridor();
    let (graph, start, end) = maze.parse().unwrap();
    assert_eq!(start, maze.to_index(2, 0));
    assert_eq!(end, maze.to_index(2, 4));
    assert_eq!(
        graph.get(&start).unwrap(),
        &vec![Edge { to: end, weight: 4, direction: Direction::Down }]
    );
    assert_eq!(
        graph.get(&end).unwrap(),
        &vec![Edge { to: start, weight: 4, direction: Direction::Up }]
    );
    assert_eq!(graph.vertex_count(), 2);
    assert_eq!(graph.edge_count(), 2);
    for id in 0..25 {
        if id != start && id != end {
            assert!(graph.get(&id).is_none());
        }
    }
}

#[test]
fn a_maze_without_openings_has_no_terminals() {
    let maze = maze_from(&["#####", "#####", "#####", "#####", "#####"]);
    assert!(maze.parse().is_none());
}

#[test]
fn a_maze_without_entry_has_no_terminals() {
    let maze = maze_from(&["#####", "##.##", "##.##", "##.##", "##.##"]);
    assert!(maze.parse().is_none());
}

#[test]
fn a_maze_without_exit_has_no_terminals() {
    let maze = maze_from(&["##.##", "##.##", "##.##", "##.##", "#####"]);
    assert!(maze.parse().is_none());
}

#[test]
fn openings_in_the_corners_do_not_count() {
    let maze = maze_from(&[".###.", ".....", ".....", ".....", ".###."]);
    assert!(maze.parse().is_none());
}

#[test]
fn a_maze_too_narrow_for_an_inner_column_has_no_terminals() {
    let maze = maze_from(&["..", "..", ".."]);
    assert!(maze.parse().is_none());
    let empty = Maze::new(0, 0, Vec::new()).unwrap();
    assert!(empty.parse().is_none());
}

#[test]
fn the_first_opening_of_a_row_is_the_terminal() {
    let maze = maze_from(&["#.#.#", "#.#.#", "#...#", "#.#.#", "#.#.#"]);
    let (graph, start, end) = maze.parse().unwrap();
    assert_eq!(start, maze.to_index(1, 0));
    assert_eq!(end, maze.to_index(1, 4));
    // the second opening of the top row is no vertex: the junction below it
    // has no link upwards
    let below = maze.to_index(3, 2);
    assert!(graph.get_edge(below, maze.to_index(3, 0)).is_none());
    assert!(graph.get(&maze.to_index(3, 0)).is_none());
    assert_eq!(
        graph.get_edge(start, maze.to_index(1, 2)),
        Some(&Edge { to: maze.to_index(1, 2), weight: 2, direction: Direction::Down })
    );
}

#[test]
fn branching_maze_scans_to_its_links() {
    let maze = branching();
    let (graph, start, end) = maze.parse().unwrap();
    assert_eq!(start, 5);
    assert_eq!(end, 93);
    let lists: [(usize, Vec<Edge>); 9] = [
        (5, vec![Edge { to: 16, weight: 1, direction: Direction::Down }]),
        (
            14,
            vec![
                Edge { to: 16, weight: 2, direction: Direction::Right },
                Edge { to: 80, weight: 6, direction: Direction::Down },
            ],
        ),
        (
            16,
            vec![
                Edge { to: 14, weight: 2, direction: Direction::Left },
                Edge { to: 5, weight: 1, direction: Direction::Up },
                Edge { to: 60, weight: 4, direction: Direction::Down },
            ],
        ),
        (
            60,
            vec![
                Edge { to: 16, weight: 4, direction: Direction::Up },
                Edge { to: 64, weight: 4, direction: Direction::Right },
            ],
        ),
        (
            64,
            vec![
                Edge { to: 60, weight: 4, direction: Direction::Left },
                Edge { to: 86, weight: 2, direction: Direction::Down },
            ],
        ),
        (
            80,
            vec![
                Edge { to: 14, weight: 6, direction: Direction::Up },
                Edge { to: 82, weight: 2, direction: Direction::Right },
            ],
        ),
        (
            82,
            vec![
                Edge { to: 80, weight: 2, direction: Direction::Left },
                Edge { to: 86, weight: 4, direction: Direction::Right },
                Edge { to: 93, weight: 1, direction: Direction::Down },
            ],
        ),
        (
            86,
            vec![
                Edge { to: 82, weight: 4, direction: Direction::Left },
                Edge { to: 64, weight: 2, direction: Direction::Up },
            ],
        ),
        (93, vec![Edge { to: 82, weight: 1, direction: Direction::Up }]),
    ];
    for (vertex, edges) in lists.iter() {
        assert_eq!(graph.get(vertex).unwrap(), edges);
    }
    for id in 0..99 {
        if !lists.iter().any(|(vertex, _)| *vertex == id) {
            assert!(graph.get(&id).is_none());
        }
    }
    assert_eq!(graph.vertex_count(), 9);
    assert_eq!(graph.edge_count(), 18);
}

#[test]
fn a_crossing_is_a_vertex_with_four_links() {
    let maze = maze_from(&["##.##", "##.##", "#...#", "##.##", "##.##"]);
    let (graph, start, end) = maze.parse().unwrap();
    let centre = maze.to_index(2, 2);
    assert_eq!(
        graph.get(&centre).unwrap(),
        &vec![
            Edge { to: maze.to_index(1, 2), weight: 1, direction: Direction::Left },
            Edge { to: start, weight: 2, direction: Direction::Up },
            Edge { to: maze.to_index(3, 2), weight: 1, direction: Direction::Right },
            Edge { to: end, weight: 2, direction: Direction::Down },
        ]
    );
}

#[test]
fn a_wall_breaks_the_link() {
    let maze = maze_from(&["##.##", "##.##", "#####", "##.##", "##.##"]);
    let (graph, start, end) = maze.parse().unwrap();
    assert_eq!(start, 2);
    assert_eq!(end, 22);
    assert_eq!(
        graph.get(&start).unwrap(),
        &vec![Edge { to: 7, weight: 1, direction: Direction::Down }]
    );
    assert_eq!(
        graph.get(&end).unwrap(),
        &vec![Edge { to: 17, weight: 1, direction: Direction::Up }]
    );
    assert!(graph.get_edge(7, 17).is_none());
}

#[test]
fn a_single_row_links_the_terminal_to_itself() {
    let maze = maze_from(&["#.#"]);
    let (graph, start, end) = maze.parse().unwrap();
    assert_eq!(start, 1);
    assert_eq!(end, 1);
    assert_eq!(
        graph.get(&1).unwrap(),
        &vec![
            Edge { to: 1, weight: 0, direction: Direction::Down },
            Edge { to: 1, weight: 0, direction: Direction::Up },
        ]
    );
}

#[test]
fn corridor_expands_to_every_cell() {
    let mut maze = corridor();
    let (graph, start, end) = maze.parse().unwrap();
    let trail = maze.full_path(&graph, &[start, end]);
    assert_eq!(trail, vec![2, 7, 12, 17, 22]);
    let back = maze.full_path(&graph, &[end, start]);
    assert_eq!(back, vec![22, 17, 12, 7, 2]);
    assert_eq!(maze.full_path(&graph, &[start]), vec![2]);
}

#[test]
fn expansion_steps_in_all_four_directions() {
    let mut maze = branching();
    let (graph, _, _) = maze.parse().unwrap();
    let trail = maze.full_path(&graph, &[16, 14, 80, 82, 86, 64, 60, 16]);
    assert_eq!(
        trail,
        vec![
            16, 15, 14, 25, 36, 47, 58, 69, 80, 81, 82, 83, 84, 85, 86, 75, 64, 63, 62, 61, 60,
            49, 38, 27, 16
        ]
    );
}

#[test]
fn expanded_trail_is_connected() {
    let mut maze = branching();
    let (graph, start, end) = maze.parse().unwrap();
    let path = vec![start, 16, 14, 80, 82, end];
    let trail = maze.full_path(&graph, &path);
    assert_eq!(trail.first(), Some(&start));
    assert_eq!(trail.last(), Some(&end));
    assert_eq!(trail.len(), 13);
    for pair in trail.windows(2) {
        let (ax, ay) = maze.to_coord(pair[0]);
        let (bx, by) = maze.to_coord(pair[1]);
        assert_eq!(ax.abs_diff(bx) + ay.abs_diff(by), 1);
        assert!(maze.is_path(bx, by));
    }
}

#[test]
fn canvas_marks_the_walls() {
    let maze = corridor();
    let cells = maze.canvas();
    assert_eq!(cells.len(), 25);
    for id in 0..25 {
        assert_eq!(cells[id], if id % 5 == 2 { 0 } else { 1 });
    }
}

#[test]
fn png_explore_paints_ends_over_route_over_visited() {
    let mut maze = branching();
    let (graph, start, end) = maze.parse().unwrap();
    let mut context = Context::search(start, end);
    context.visit(start);
    context.visit(16);
    context.visit(60);
    context.visit(14);
    context.set_path(vec![start, 16, 14, 80, 82, end]);
    maze.png_explore(&graph, &context);
    let bytes = maze.into_raw();
    let pixel = |id: usize| (bytes[3 * id], bytes[3 * id + 1], bytes[3 * id + 2]);
    assert_eq!(pixel(start), (0, 0, 255));
    assert_eq!(pixel(end), (0, 0, 255));
    assert_eq!(pixel(16), (255, 0, 0));
    assert_eq!(pixel(15), (255, 0, 0));
    assert_eq!(pixel(47), (255, 0, 0));
    assert_eq!(pixel(82), (255, 0, 0));
    assert_eq!(pixel(60), (0, 255, 0));
    assert_eq!(pixel(27), (255, 255, 255));
    assert_eq!(pixel(64), (255, 255, 255));
    assert_eq!(pixel(0), (0, 0, 0));
}

#[test]
fn steps_between_is_the_manhattan_distance() {
    let maze = branching();
    assert_eq!(maze.steps_between(5, 93), 8);
    assert_eq!(maze.steps_between(93, 5), 8);
    assert_eq!(maze.steps_between(14, 93), 9);
    assert_eq!(maze.steps_between(60, 60), 0);
    assert_eq!(maze.steps_between(64, 80), 8);
}

#[test]
fn every_key_of_a_scanned_graph_has_an_edge() {
    let maze = branching();
    let (graph, _, _) = maze.parse().unwrap();
    let mut keys = 0;
    let mut edges = 0;
    for id in 0..99 {
        if let Some(list) = graph.get(&id) {
            assert!(!list.is_empty());
            let (x, y) = maze.to_coord(id);
            assert!(maze.is_path(x, y));
            keys += 1;
            edges += list.len();
        }
    }
    assert_eq!(graph.vertex_count(), keys);
    assert_eq!(graph.edge_count(), edges);
}

#[test]
fn an_exit_without_a_vertex_above_it_is_no_key() {
    let maze = maze_from(&["#.###", "#.###", "#...#", "#####", "###.#"]);
    let (graph, start, end) = maze.parse().unwrap();
    assert_eq!(start, 1);
    assert_eq!(end, 23);
    assert!(graph.get(&end).is_none());
    assert!(graph.get(&0).is_none());
    assert_eq!(graph.vertex_count(), 3);
    assert_eq!(graph.edge_count(), 4);
}
