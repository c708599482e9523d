use disjoint_path_routing::assignment::GreedyMakespan;
use disjoint_path_routing::demand::Request;
use disjoint_path_routing::plan::Vertex;

fn v(x: u64, y: u64) -> Vertex {
    Vertex { x, y }
}

#[test]
fn calculate_assignment_single() {
    let algorithm = GreedyMakespan::new();
    let requests = vec![Some(Request { from: v(0, 0), to: v(0, 1) })];
    let availability = vec![(0, v(0, 1))];
    assert_eq!(vec![vec![0]], algorithm.calculate_assignment(&requests, &availability));
}

#[test]
fn calculate_assignment_multiple() {
    let algorithm = GreedyMakespan::new();
    let requests = vec![
        Some(Request { from: v(0, 0), to: v(0, 1) }),
        Some(Request { from: v(0, 0), to: v(0, 2) }),
        Some(Request { from: v(0, 0), to: v(0, 1) }),
    ];
    let availability = vec![(0, v(0, 0)), (1, v(0, 0))];
    let assignment = algorithm.calculate_assignment(&requests, &availability);
    assert_eq!(assignment.len(), 2);
    let totals: Vec<u64> = assignment
        .into_iter()
        .map(|assigned| assigned.into_iter().map(|id| requests[id].unwrap().distance()).sum())
        .collect();
    assert_eq!(totals, vec![2, 2]);
}

#[test]
fn identical_requests_are_spread_over_robots() {
    let algorithm = GreedyMakespan::new();
    let request = Some(Request { from: v(0, 0), to: v(0, 1) });
    let requests = vec![request, request, request];
    let availability = vec![(0, v(0, 0)), (0, v(0, 0))];
    let assignment = algorithm.calculate_assignment(&requests, &availability);
    assert_eq!(assignment, vec![vec![0, 2], vec![1]]);
}

#[test]
fn delivered_requests_are_not_assigned() {
    let algorithm = GreedyMakespan::new();
    let requests = vec![None, Some(Request { from: v(0, 1), to: v(2, 1) }), None];
    let availability = vec![(5, v(0, 0)), (3, v(0, 0))];
    assert_eq!(algorithm.calculate_assignment(&requests, &availability), vec![vec![], vec![1]]);
}

#[test]
fn later_free_robot_waits_for_the_cost() {
    let algorithm = GreedyMakespan::new();
    // Robot 0 is free at 0; after a request of distance 3 it is free at 5,
    // after robot 1 (free at 4).
    let requests = vec![
        Some(Request { from: v(0, 0), to: v(0, 3) }),
        Some(Request { from: v(0, 0), to: v(0, 1) }),
        Some(Request { from: v(0, 0), to: v(0, 1) }),
    ];
    let availability = vec![(0, v(0, 0)), (4, v(0, 0))];
    assert_eq!(algorithm.calculate_assignment(&requests, &availability), vec![vec![0, 2], vec![1]]);
}

#[test]
fn no_robot_no_assignment() {
    let algorithm = GreedyMakespan::new();
    let requests = vec![Some(Request { from: v(0, 1), to: v(2, 1) })];
    assert!(algorithm.calculate_assignment(&requests, &vec![]).is_empty());
}

#[test]
fn request_distance() {
    assert_eq!(Request { from: v(0, 1), to: v(2, 3) }.distance(), 4);
}
