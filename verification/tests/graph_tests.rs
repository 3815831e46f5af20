use labyrinth::graph::{Direction, Edge, Graph};

#[test]
fn opposite_is_an_involution() {
    for direction in [Direction::Up, Direction::Down, Direction::Left, Direction::Right] {
        assert_eq!(direction.opposite().opposite(), direction);
        assert_ne!(direction.opposite(), direction);
    }
    assert_eq!(Direction::Up.opposite(), Direction::Down);
    assert_eq!(Direction::Down.opposite(), Direction::Up);
    assert_eq!(Direction::Left.opposite(), Direction::Right);
    assert_eq!(Direction::Right.opposite(), Direction::Left);
}

#[test]
fn new_graph_is_empty() {
    let graph = Graph::new();
    assert_eq!(graph.vertex_count(), 0);
    assert_eq!(graph.edge_count(), 0);
    assert!(graph.get(&0).is_none());
    assert!(graph.get_neighbors(&0).is_none());
    assert!(graph.get_edge(0, 1).is_none());
}

#[test]
fn add_edge_inserts_both_directions() {
    let mut graph = Graph::new();
    graph.add_edge(1, 2, 7, Direction::Right);
    assert_eq!(
        graph.get(&1).unwrap(),
        &vec![Edge { to: 2, weight: 7, direction: Direction::Right }]
    );
    assert_eq!(
        graph.get(&2).unwrap(),
        &vec![Edge { to: 1, weight: 7, direction: Direction::Left }]
    );
    assert_eq!(graph.edge_count(), 2);
    assert_eq!(graph.vertex_count(), 2);
}

#[test]
fn add_directed_edge_appends_in_insertion_order() {
    let mut graph = Graph::new();
    graph.add_directed_edge(4, 9, 3, Direction::Down);
    graph.add_directed_edge(4, 2, 5, Direction::Up);
    graph.add_directed_edge(4, 9, 1, Direction::Left);
    assert_eq!(
        graph.get(&4).unwrap(),
        &vec![
            Edge { to: 9, weight: 3, direction: Direction::Down },
            Edge { to: 2, weight: 5, direction: Direction::Up },
            Edge { to: 9, weight: 1, direction: Direction::Left },
        ]
    );
    assert_eq!(graph.get_neighbors(&4), Some(vec![9, 2, 9]));
    assert!(graph.get(&9).is_none());
    assert!(graph.get(&2).is_none());
}

#[test]
fn counters_follow_the_insertions() {
    let mut graph = Graph::new();
    graph.add_directed_edge(4, 9, 3, Direction::Down);
    assert_eq!(graph.vertex_count(), 1);
    assert_eq!(graph.edge_count(), 1);
    graph.add_directed_edge(4, 2, 5, Direction::Up);
    assert_eq!(graph.vertex_count(), 1);
    assert_eq!(graph.edge_count(), 2);
    graph.add_directed_edge(9, 4, 3, Direction::Up);
    assert_eq!(graph.vertex_count(), 2);
    assert_eq!(graph.edge_count(), 3);
}

#[test]
fn get_edge_returns_the_first_match() {
    let mut graph = Graph::new();
    graph.add_directed_edge(4, 9, 3, Direction::Down);
    graph.add_directed_edge(4, 2, 5, Direction::Up);
    graph.add_directed_edge(4, 9, 1, Direction::Left);
    assert_eq!(
        graph.get_edge(4, 9),
        Some(&Edge { to: 9, weight: 3, direction: Direction::Down })
    );
    assert_eq!(
        graph.get_edge(4, 2),
        Some(&Edge { to: 2, weight: 5, direction: Direction::Up })
    );
    assert!(graph.get_edge(4, 7).is_none());
    assert!(graph.get_edge(9, 4).is_none());
}

#[test]
fn weight_zero_is_legal() {
    let mut graph = Graph::new();
    graph.add_edge(3, 8, 0, Direction::Up);
    assert_eq!(graph.get_edge(3, 8).unwrap().weight, 0);
    assert_eq!(graph.get_edge(8, 3).unwrap().weight, 0);
    assert_eq!(graph.get_edge(8, 3).unwrap().direction, Direction::Down);
}

#[test]
fn self_loop_lists_both_edges_under_one_vertex() {
    let mut graph = Graph::new();
    graph.add_edge(6, 6, 2, Direction::Down);
    assert_eq!(
        graph.get(&6).unwrap(),
        &vec![
            Edge { to: 6, weight: 2, direction: Direction::Down },
            Edge { to: 6, weight: 2, direction: Direction::Up },
        ]
    );
    assert_eq!(graph.vertex_count(), 1);
    assert_eq!(graph.edge_count(), 2);
}

#[test]
fn counters_count_keys_and_edges() {
    let mut graph = Graph::new();
    graph.add_edge(1, 2, 3, Direction::Right);
    graph.add_edge(1, 2, 3, Direction::Right);
    graph.add_directed_edge(2, 7, 1, Direction::Down);
    let mut keys = 0;
    let mut edges = 0;
    for id in 0..10 {
        if let Some(list) = graph.get(&id) {
            keys += 1;
            edges += list.len();
        }
    }
    assert_eq!(keys, 2);
    assert_eq!(edges, 5);
    assert_eq!(graph.vertex_count(), 2);
    assert_eq!(graph.edge_count(), 5);
}
