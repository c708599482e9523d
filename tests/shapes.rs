use disjoint_path_routing::e_plan::EPlan;
use disjoint_path_routing::middle_terminals::MiddleTerminals;
use disjoint_path_routing::plan::{Plan, Vertex};
use std::collections::HashSet;

fn v(x: u64, y: u64) -> Vertex {
    Vertex { x, y }
}

#[test]
fn middle_terminals_holes_and_vertices() {
    let plan = MiddleTerminals::new(10, 10, 3, 3);
    let holes: HashSet<Vertex> = plan.holes().into_iter().collect();
    let expected: HashSet<Vertex> = [v(3, 3), v(3, 6), v(6, 3), v(6, 6)].iter().cloned().collect();
    assert_eq!(holes, expected);
    assert_eq!(plan.vertices().len(), 100 - 4);
    assert!(!plan.contains(&v(3, 3)));
    assert!(plan.contains(&v(3, 4)));
    assert!(!plan.contains(&v(10, 4)));
}

#[test]
fn middle_terminals_sources_and_terminals() {
    let plan = MiddleTerminals::new(10, 10, 3, 3);
    let sources: HashSet<Vertex> = plan.sources().into_iter().collect();
    let expected: HashSet<Vertex> = (4..7).map(|y| v(0, y)).collect();
    assert_eq!(sources, expected);
    let terminals = plan.terminals();
    // Four neighbours around each of four holes, none shared.
    assert_eq!(terminals.len(), 16);
    assert!(terminals.contains(&v(3, 2)));
    assert!(terminals.contains(&v(7, 6)));
    assert!(!terminals.contains(&v(3, 3)));
}

#[test]
fn middle_terminals_neighbors_skip_holes() {
    let plan = MiddleTerminals::new(10, 10, 3, 3);
    let around: HashSet<Vertex> = plan.neighbors(&v(3, 4)).into_iter().collect();
    let expected: HashSet<Vertex> = [v(2, 4), v(4, 4), v(3, 5)].iter().cloned().collect();
    assert_eq!(around, expected);
}

#[test]
fn e_plan_shape() {
    let plan = EPlan::new(6, 8, 2, 3);
    assert_eq!(plan.nr_gaps(), 2);
    assert!(plan.contains(&v(1, 4)));
    assert!(plan.contains(&v(4, 2)));
    assert!(!plan.contains(&v(4, 3)));
    assert!(!plan.contains(&v(4, 4)));
    assert!(plan.contains(&v(4, 5)));
    assert_eq!(plan.vertices().len(), 48 - 2 * 4);
    assert_eq!(plan.sources().len(), 8);
    let terminals: HashSet<Vertex> = plan.terminals().into_iter().collect();
    let expected: HashSet<Vertex> =
        [0, 2, 5, 7].iter().flat_map(|&y| (2..6).map(move |x| v(x, y))).collect();
    assert_eq!(terminals, expected);
    let around: HashSet<Vertex> = plan.neighbors(&v(3, 5)).into_iter().collect();
    let expected: HashSet<Vertex> = [v(2, 5), v(4, 5), v(3, 6)].iter().cloned().collect();
    assert_eq!(around, expected);
}

#[test]
fn e_plan_without_bars_height() {
    let plan = EPlan::new(4, 6, 1, 0);
    assert_eq!(plan.nr_gaps(), 4);
    assert!(plan.contains(&v(3, 1)));
    assert!(plan.contains(&v(2, 5)));
}

#[test]
fn neighbors_of_a_hole() {
    let plan = MiddleTerminals::new(10, 10, 3, 3);
    let around: HashSet<Vertex> = plan.neighbors(&v(3, 3)).into_iter().collect();
    let expected: HashSet<Vertex> = [v(2, 3), v(4, 3), v(3, 2), v(3, 4)].iter().cloned().collect();
    assert_eq!(around, expected);
}
