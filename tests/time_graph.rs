use disjoint_path_routing::one_three_rectangle::OneThreeRectangle;
use disjoint_path_routing::plan::{Plan, Vertex};
use disjoint_path_routing::time_graph::{Path, TimeGraph};

fn new() -> (u64, u64, usize, OneThreeRectangle) {
    let (x_size, y_size, total_time) = (3, 4, 8);
    let plan = OneThreeRectangle::new(x_size, y_size);
    (x_size, y_size, total_time, plan)
}

fn v(x: u64, y: u64) -> Vertex {
    Vertex { x, y }
}

#[test]
fn time_graph_test_vertices() {
    let (x_size, y_size, total_time, plan) = new();
    let time_graph = TimeGraph::from_plan(&plan, total_time);

    assert_eq!(time_graph.capacity(), total_time + 1);
    let mut nr_vertices = 0u64;
    for time in 0..=total_time {
        for x in 0..x_size {
            for y in 0..y_size {
                if time_graph.is_free(time, v(x, y)) {
                    nr_vertices += 1;
                }
            }
        }
    }
    assert_eq!(nr_vertices, x_size * y_size * (total_time as u64 + 1));
    for time in 0..total_time {
        assert!(time_graph.is_free(time, v(0, 0)));
        assert!(time_graph.is_free(time, v(x_size - 1, 2)));
    }
    assert!(!time_graph.is_free(0, v(x_size, 0)));
    assert!(!time_graph.is_free(total_time + 1, v(0, 0)));
}

#[test]
fn time_graph_test_find_path() {
    let (_, _, total_time, plan) = new();
    let mut time_graph = TimeGraph::from_plan(&plan, total_time);

    let path = time_graph.find_path(&plan, 1, v(0, 0), v(0, 1));
    assert_eq!(path, Some(Path { start_time: 1, nodes: vec![v(0, 0), v(0, 1)] }));
    let path = time_graph.find_path(&plan, 1, v(0, 0), v(0, 2));
    assert_eq!(path, Some(Path { start_time: 1, nodes: vec![v(0, 0), v(0, 1), v(0, 2)] }));
    let path = time_graph.find_path(&plan, 1, v(0, 0), v(2, 0));
    assert_eq!(path, Some(Path { start_time: 1, nodes: vec![v(0, 0), v(1, 0), v(2, 0)] }));

    // Two shortest paths
    let path = time_graph.find_path(&plan, 2, v(0, 0), v(1, 1));
    assert!(
        path == Some(Path { start_time: 2, nodes: vec![v(0, 0), v(1, 0), v(1, 1)] })
            || path == Some(Path { start_time: 2, nodes: vec![v(0, 0), v(0, 1), v(1, 1)] })
    );

    // Time just long enough
    let (x_size, y_size) = (2, 3);
    let plan = OneThreeRectangle::new(x_size, y_size);
    let from = v(0, 1);
    let to = v(x_size - 1, 1);
    let mut time_graph = TimeGraph::from_plan(&plan, x_size as usize);
    assert_eq!(
        time_graph.find_path(&plan, 1, from, to),
        Some(Path { start_time: 1, nodes: vec![from, to] })
    );
}

#[test]
fn time_graph_test_remove_path() {
    let (_, _, total_time, plan) = new();
    let mut time_graph = TimeGraph::from_plan(&plan, total_time);

    let from = v(0, 1);
    let to = v(1, 1);
    let start_time = 1;
    let path = Path { start_time, nodes: vec![from, to] };
    time_graph.remove_path(&path);

    assert!(!time_graph.is_free(start_time, from));
    assert!(!time_graph.is_free(start_time + 1, from));
    assert!(time_graph.is_free(start_time + 2, from));

    assert!(time_graph.is_free(start_time - 1, to));
    assert!(!time_graph.is_free(start_time, to));
    assert!(!time_graph.is_free(start_time + 1, to));
    assert!(!time_graph.is_free(start_time + 2, to));
}

#[test]
fn found_path_is_free_and_reserved_after_removal() {
    let (_, _, total_time, plan) = new();
    let mut time_graph = TimeGraph::from_plan(&plan, total_time);
    let path = time_graph.find_path(&plan, 1, v(0, 0), v(2, 3)).unwrap();
    assert_eq!(path.nodes.len(), 6);
    for (k, node) in path.nodes.iter().enumerate() {
        assert!(time_graph.is_free(path.start_time + k, *node));
    }
    assert!(time_graph.is_free(path.end_time() + 1, v(2, 3)));
    time_graph.remove_path(&path);
    for (k, node) in path.nodes.iter().enumerate() {
        let t = path.start_time + k;
        assert!(!time_graph.is_free(t - 1, *node));
        assert!(!time_graph.is_free(t, *node));
        assert!(!time_graph.is_free(t + 1, *node));
    }
}

#[test]
fn removing_a_path_twice_equals_once() {
    let (x_size, y_size, total_time, plan) = new();
    let mut once = TimeGraph::from_plan(&plan, total_time);
    let mut twice = TimeGraph::from_plan(&plan, total_time);
    let path = Path { start_time: 2, nodes: vec![v(0, 1), v(1, 1), v(1, 2)] };
    once.remove_path(&path);
    twice.remove_path(&path);
    twice.remove_path(&path);
    for t in 0..=total_time + 1 {
        for x in 0..x_size {
            for y in 0..y_size {
                assert_eq!(once.is_free(t, v(x, y)), twice.is_free(t, v(x, y)));
            }
        }
    }
}

#[test]
fn cleaning_the_front_twice_equals_once() {
    let (x_size, y_size, total_time, plan) = new();
    let mut once = TimeGraph::from_plan(&plan, total_time);
    let mut twice = TimeGraph::from_plan(&plan, total_time);
    let path = Path { start_time: 2, nodes: vec![v(0, 1), v(1, 1)] };
    once.remove_path(&path);
    twice.remove_path(&path);
    once.clean_front(&plan, 3);
    twice.clean_front(&plan, 3);
    twice.clean_front(&plan, 3);
    assert_eq!(once.earliest_time(), 3);
    assert_eq!(twice.earliest_time(), 3);
    assert_eq!(once.capacity(), twice.capacity());
    assert_eq!(once.capacity(), total_time + 1 - 3);
    for t in 0..=total_time + 1 {
        for x in 0..x_size {
            for y in 0..y_size {
                assert_eq!(once.is_free(t, v(x, y)), twice.is_free(t, v(x, y)));
            }
        }
    }
    assert!(!once.is_free(3, v(1, 1)));
    assert!(!once.is_free(2, v(0, 0)));
}

#[test]
fn cleaning_every_layer_leaves_none() {
    let (_, _, _, plan) = new();
    let mut time_graph = TimeGraph::from_plan(&plan, 2);
    time_graph.clean_front(&plan, 3);
    assert_eq!(time_graph.earliest_time(), 3);
    assert_eq!(time_graph.capacity(), 0);
    assert!(!time_graph.is_free(3, v(1, 1)));
    // A search past the layers grows the graph again.
    let path = time_graph.find_path(&plan, 3, v(0, 0), v(0, 1)).unwrap();
    assert_eq!(path.nodes, vec![v(0, 0), v(0, 1)]);
}

#[test]
fn cleaning_beyond_the_layers_moves_the_front() {
    let (_, _, _, plan) = new();
    let mut time_graph = TimeGraph::from_plan(&plan, 2);
    time_graph.clean_front(&plan, 10);
    assert_eq!(time_graph.earliest_time(), 10);
    assert_eq!(time_graph.capacity(), 0);
}

#[test]
fn horizon_of_exact_length_finds_a_path() {
    let plan = OneThreeRectangle::new(4, 1);
    let mut time_graph = TimeGraph::from_plan(&plan, 4);
    let path = time_graph.find_path(&plan, 0, v(0, 0), v(3, 0)).unwrap();
    assert_eq!(path.nodes, vec![v(0, 0), v(1, 0), v(2, 0), v(3, 0)]);
    assert_eq!(path.end_time(), 3);
    assert_eq!(time_graph.capacity(), 5);
}

#[test]
fn search_extends_the_graph_when_it_runs_out_of_layers() {
    let plan = OneThreeRectangle::new(6, 1);
    let mut time_graph = TimeGraph::from_plan(&plan, 1);
    assert_eq!(time_graph.capacity(), 2);
    let path = time_graph.find_path(&plan, 0, v(0, 0), v(5, 0)).unwrap();
    assert_eq!(path.nodes.len(), 6);
    assert_eq!(path.end_time(), 5);
    assert!(time_graph.capacity() > 2);
    assert!(time_graph.is_free(6, v(5, 0)));
}

#[test]
fn reserved_corridor_makes_the_search_wait() {
    let plan = OneThreeRectangle::new(3, 1);
    let mut time_graph = TimeGraph::from_plan(&plan, 10);
    let blocker = Path { start_time: 1, nodes: vec![v(1, 0), v(1, 0)] };
    time_graph.remove_path(&blocker);
    let path = time_graph.find_path(&plan, 0, v(0, 0), v(2, 0)).unwrap();
    assert_eq!(path.start_time, 0);
    assert_eq!(path.nodes, vec![v(0, 0), v(0, 0), v(0, 0), v(0, 0), v(1, 0), v(2, 0)]);
}

#[test]
fn no_path_from_a_taken_vertex() {
    let (_, _, total_time, plan) = new();
    let mut time_graph = TimeGraph::from_plan(&plan, total_time);
    time_graph.remove_path(&Path { start_time: 1, nodes: vec![v(0, 0)] });
    assert_eq!(time_graph.find_path(&plan, 1, v(0, 0), v(1, 1)), None);
    assert_eq!(time_graph.find_path(&plan, 1, v(1, 1), v(5, 5)), None);
}

#[test]
fn test_find_earliest_path() {
    let (_, _, total_time, plan) = new();
    let mut time_graph = TimeGraph::from_plan(&plan, total_time);
    let from = v(0, 1);
    let to = v(1, 1);
    assert_eq!(
        time_graph.find_earliest_path(&plan, from, to),
        Some(Path { start_time: 0, nodes: vec![from, to] })
    );
    time_graph.remove_path(&Path { start_time: 1, nodes: vec![from] });
    let later = time_graph.find_earliest_path(&plan, from, to).unwrap();
    assert_eq!(later.start_time, 3);
}

#[test]
fn time_graph_test_find_path_from_time_zero() {
    let (_, _, total_time, plan) = new();
    let mut time_graph = TimeGraph::from_plan(&plan, total_time);
    let path = time_graph.find_path(&plan, 0, v(0, 0), v(0, 1));
    assert_eq!(path, Some(Path { start_time: 0, nodes: vec![v(0, 0), v(0, 1)] }));
    let path = time_graph.find_path(&plan, 1, v(0, 0), v(0, 2));
    assert_eq!(path, Some(Path { start_time: 1, nodes: vec![v(0, 0), v(0, 1), v(0, 2)] }));
    let path = time_graph.find_path(&plan, 0, v(0, 0), v(2, 0));
    assert_eq!(path, Some(Path { start_time: 0, nodes: vec![v(0, 0), v(1, 0), v(2, 0)] }));

    // Horizon exactly the shortest length.
    let plan = OneThreeRectangle::new(2, 3);
    let mut time_graph = TimeGraph::from_plan(&plan, 1);
    assert_eq!(
        time_graph.find_path(&plan, 0, v(0, 1), v(1, 1)),
        Some(Path { start_time: 0, nodes: vec![v(0, 1), v(1, 1)] })
    );
}

#[test]
fn no_path_to_a_vertex_outside_the_plan_or_walled_in() {
    let plan = OneThreeRectangle::new(3, 1);
    let mut time_graph = TimeGraph::from_plan(&plan, 4);
    // The middle cell is taken while the layers last; past them it is free.
    for t in 0..5 {
        time_graph.remove_path(&Path { start_time: t, nodes: vec![v(1, 0)] });
    }
    assert_eq!(time_graph.find_path(&plan, 0, v(0, 0), v(2, 0)).map(|p| p.nodes.len()), Some(7));
    assert_eq!(time_graph.find_path(&plan, 0, v(0, 0), v(3, 0)), None);
}
