use disjoint_path_routing::demand::Request;
use disjoint_path_routing::plan::Vertex;
use disjoint_path_routing::single_vehicle_ilp::MakespanSingleVehicleILP;

fn v(x: u64, y: u64) -> Vertex {
    Vertex { x, y }
}

#[test]
fn order_follows_transitions() {
    let transitions = vec![(2, 0), (0, 3), (3, 1)];
    assert_eq!(MakespanSingleVehicleILP::reconstruct_request_order(2, &transitions, 1), vec![2, 0, 3, 1]);
}

#[test]
fn single_request_order() {
    assert_eq!(MakespanSingleVehicleILP::reconstruct_request_order(4, &vec![], 4), vec![4]);
}

#[test]
fn clusters_stay_together_in_the_order() {
    // Requests 0 and 1 near x = 0, requests 2 and 3 near x = 10.
    let transitions = vec![(0, 1), (1, 2), (2, 3)];
    let order = MakespanSingleVehicleILP::reconstruct_request_order(0, &transitions, 3);
    assert_eq!(order, vec![0, 1, 2, 3]);
}

#[test]
fn a_cycle_stops_after_one_step_per_transition() {
    let transitions = vec![(0, 1), (1, 0)];
    assert_eq!(MakespanSingleVehicleILP::reconstruct_request_order(0, &transitions, 5), vec![0, 1, 0]);
}

#[test]
fn distances_for_the_solver() {
    let requests = vec![
        Some(Request { from: v(0, 0), to: v(0, 1) }),
        None,
        Some(Request { from: v(10, 2), to: v(10, 3) }),
    ];
    let (first, transitions, last) =
        MakespanSingleVehicleILP::calculate_distances(v(0, 0), &vec![0, 2], &requests);
    assert_eq!(first, vec![(0, 0), (2, 12)]);
    assert_eq!(transitions, vec![(0, 0, 1), (0, 2, 11), (2, 0, 13), (2, 2, 1)]);
    assert_eq!(last, vec![(0, 0), (2, 0)]);
}

#[test]
fn quality_is_the_worst_robot() {
    let requests = vec![
        Some(Request { from: v(0, 0), to: v(0, 3) }),
        Some(Request { from: v(1, 1), to: v(2, 1) }),
        None,
    ];
    let assignment = vec![vec![0, 1], vec![2], vec![]];
    // Robot 0: 2 + 3 + 1; robot 1: 9 + 0; robot 2: 4.
    assert_eq!(MakespanSingleVehicleILP::assignment_quality(&vec![2, 9, 4], &assignment, &requests), 9);
    assert_eq!(MakespanSingleVehicleILP::assignment_quality(&vec![8, 1, 4], &assignment, &requests), 12);
}
