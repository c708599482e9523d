use disjoint_path_routing::one_three_rectangle::OneThreeRectangle;
use disjoint_path_routing::plan::{Plan, Rectangle, Vertex};
use std::collections::HashSet;

fn corners(x_size: u64, y_size: u64) -> [(u64, u64); 4] {
    [(0, 0), (0, y_size - 1), (x_size - 1, 0), (x_size - 1, y_size - 1)]
}

fn new() -> (u64, u64, OneThreeRectangle) {
    let (x_size, y_size) = (3, 4);
    let plan = OneThreeRectangle::new(x_size, y_size);
    (x_size, y_size, plan)
}

fn neighbor_set(plan: &OneThreeRectangle, x: u64, y: u64) -> HashSet<Vertex> {
    plan.neighbors(&Vertex { x, y }).into_iter().collect()
}

fn set_of(vs: &[(u64, u64)]) -> HashSet<Vertex> {
    vs.iter().map(|&(x, y)| Vertex { x, y }).collect()
}

#[test]
fn plan_distance() {
    let a = Vertex { x: 1, y: 2 };
    let b = Vertex { x: 3, y: 4 };
    assert_eq!(a.distance(b), 4);

    let a = Vertex { x: 3, y: 2 };
    let b = Vertex { x: 1, y: 4 };
    assert_eq!(a.distance(b), 4);
}

#[test]
fn one_three_rectangle_distance() {
    let a = Vertex { x: 1, y: 2 };
    let b = Vertex { x: 3, y: 4 };
    assert_eq!(a.distance(b), 4);

    let a = Vertex { x: 3, y: 2 };
    let b = Vertex { x: 1, y: 4 };
    assert_eq!(a.distance(b), 4);
}

#[test]
fn test_new() {
    new();
}

#[test]
fn one_three_rectangle_test_vertices() {
    let (x_size, y_size, plan) = new();
    assert_eq!(plan.vertices().len(), (x_size * y_size) as usize);
    assert!(plan.vertices().contains(&Vertex { x: 0, y: 0 }));
    assert!(plan.vertices().contains(&Vertex { x: x_size - 1, y: y_size - 1 }));
    assert_eq!(Rectangle::x_size(&plan), x_size);
    assert_eq!(Rectangle::y_size(&plan), y_size);
}

#[test]
fn test_sources() {
    let (x_size, y_size, plan) = new();
    assert_eq!(plan.sources().len(), y_size as usize - 2);
    assert!(plan.sources().contains(&Vertex { x: 0, y: 1 }));
    assert!(plan.sources().contains(&Vertex { x: 0, y: y_size - 2 }));
    for &(x, y) in corners(x_size, y_size).iter() {
        assert!(!plan.sources().contains(&Vertex { x, y }));
    }
}

#[test]
fn test_terminals() {
    let (x_size, y_size, plan) = new();
    assert_eq!(plan.terminals().len() as u64, (x_size - 2) + (y_size - 2) + (x_size - 2));
    assert!(plan.terminals().contains(&Vertex { x: 1, y: y_size - 1 }));
    assert!(plan.terminals().contains(&Vertex { x: x_size - 1, y: y_size - 2 }));
    assert!(plan.terminals().contains(&Vertex { x: 1, y: 0 }));
    for &(x, y) in corners(x_size, y_size).iter() {
        assert!(!plan.terminals().contains(&Vertex { x, y }));
    }
}

#[test]
fn one_three_rectangle_test_neighbors() {
    let (x_size, y_size, plan) = new();
    assert_eq!(neighbor_set(&plan, 1, 1), set_of(&[(0, 1), (2, 1), (1, 2), (1, 0)]));
    assert_eq!(neighbor_set(&plan, 0, 1), set_of(&[(0, 2), (0, 0), (1, 1)]));
    assert_eq!(
        neighbor_set(&plan, x_size - 1, 1),
        set_of(&[(x_size - 2, 1), (x_size - 1, 2), (x_size - 1, 0)])
    );
    assert_eq!(
        neighbor_set(&plan, 1, y_size - 1),
        set_of(&[(1, y_size - 2), (0, y_size - 1), (2, y_size - 1)])
    );
    assert_eq!(neighbor_set(&plan, 1, 0), set_of(&[(1, 1), (0, 0), (2, 0)]));
    assert_eq!(neighbor_set(&plan, 0, 0), set_of(&[(0, 1), (1, 0)]));
    assert_eq!(neighbor_set(&plan, x_size - 1, 0), set_of(&[(x_size - 2, 0), (x_size - 1, 1)]));
    assert_eq!(
        neighbor_set(&plan, x_size - 1, y_size - 1),
        set_of(&[(x_size - 2, y_size - 1), (x_size - 1, y_size - 2)])
    );
    assert_eq!(neighbor_set(&plan, 0, y_size - 1), set_of(&[(1, y_size - 1), (0, y_size - 2)]));
}

#[test]
fn terminals_of_a_single_row_are_not_repeated() {
    let plan = OneThreeRectangle::new(4, 1);
    let terminals = plan.terminals();
    assert_eq!(terminals.len(), 2);
    assert!(terminals.contains(&Vertex { x: 1, y: 0 }));
    assert!(terminals.contains(&Vertex { x: 2, y: 0 }));
    assert!(plan.sources().is_empty());
}

#[test]
fn contains_is_the_rectangle() {
    let plan = OneThreeRectangle::new(3, 2);
    assert!(plan.contains(&Vertex { x: 2, y: 1 }));
    assert!(!plan.contains(&Vertex { x: 3, y: 1 }));
    assert!(!plan.contains(&Vertex { x: 0, y: 2 }));
}

#[test]
fn neighborhood_is_the_ball() {
    let plan = OneThreeRectangle::new(5, 5);
    let ball: HashSet<Vertex> = disjoint_path_routing::plan::neighborhood(&plan, Vertex { x: 0, y: 0 }, 2)
        .into_iter()
        .collect();
    assert_eq!(ball, set_of(&[(0, 0), (1, 0), (0, 1), (2, 0), (1, 1), (0, 2)]));
    let center = disjoint_path_routing::plan::neighborhood(&plan, Vertex { x: 2, y: 2 }, 0);
    assert_eq!(center, vec![Vertex { x: 2, y: 2 }]);
}

#[test]
fn edges_are_listed_once() {
    let plan = OneThreeRectangle::new(3, 2);
    let edges = disjoint_path_routing::plan::edges(&plan);
    // 2 rows of 2 horizontal edges, 3 vertical edges.
    assert_eq!(edges.len(), 7);
    for (i, a) in edges.iter().enumerate() {
        assert_eq!(a.first.distance(a.second), 1);
        for b in edges.iter().skip(i + 1) {
            assert!(a != b);
        }
    }
    let reversed = disjoint_path_routing::plan::UndirectedEdge { first: Vertex { x: 1, y: 0 }, second: Vertex { x: 0, y: 0 } };
    assert!(edges.iter().any(|e| *e == reversed));
}

#[test]
fn path_length_is_manhattan() {
    assert_eq!(disjoint_path_routing::plan::path_length(Vertex { x: 4, y: 1 }, Vertex { x: 1, y: 3 }), 5);
}
