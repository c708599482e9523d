use disjoint_path_routing::demand::Request;
use disjoint_path_routing::multiple_vehicle_ilp::MultiVehicleIlpFormulation;
use disjoint_path_routing::plan::Vertex;

fn v(x: u64, y: u64) -> Vertex {
    Vertex { x, y }
}

#[test]
fn queues_follow_each_robots_transitions() {
    let firsts = vec![(0, 3), (2, 1)];
    let transitions = vec![(0, 3, 0), (2, 1, 4), (0, 0, 2)];
    let queues = MultiVehicleIlpFormulation::reconstruct_assignment(3, &firsts, &transitions);
    assert_eq!(queues, vec![vec![3, 0, 2], vec![], vec![1, 4]]);
}

#[test]
fn start_and_transition_costs() {
    let requests = vec![
        Some(Request { from: v(0, 1), to: v(2, 1) }),
        None,
        Some(Request { from: v(0, 2), to: v(1, 0) }),
    ];
    let availability = vec![(0, v(0, 0)), (3, v(2, 2))];
    let start = MultiVehicleIlpFormulation::calculate_start_costs(&availability, &requests);
    assert_eq!(start, vec![(0, 0, 3), (0, 2, 5), (1, 0, 5), (1, 2, 5)]);
    let transitions = MultiVehicleIlpFormulation::calculate_transition_costs(&requests);
    assert_eq!(transitions, vec![(0, 0, 4), (0, 2, 6), (2, 0, 4), (2, 2, 6)]);
}

#[test]
fn end_costs_are_zero() {
    let requests = vec![Some(Request { from: v(0, 1), to: v(2, 1) }), None];
    let end = MultiVehicleIlpFormulation::calculate_end_costs(&vec![(0, v(0, 0)), (1, v(1, 1))], &requests);
    assert_eq!(end, vec![(0, 0, 0), (1, 0, 0)]);
}
