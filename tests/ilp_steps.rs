use disjoint_path_routing::demand::Request;
use disjoint_path_routing::ilp_steps::ilp_step_instructions;
use disjoint_path_routing::instruction::{MoveInstruction, ParcelInstruction};
use disjoint_path_routing::plan::Vertex;
use disjoint_path_routing::state::{RobotState, State};

fn v(x: u64, y: u64) -> Vertex {
    Vertex { x, y }
}

#[test]
fn carrying_robot_drops_on_its_terminal_and_moves_otherwise() {
    let state = State {
        robot_states: vec![
            RobotState { robot_id: 0, vertex: Some(v(2, 1)), parcel_id: Some(0) },
            RobotState { robot_id: 1, vertex: Some(v(0, 2)), parcel_id: Some(1) },
        ],
        requests: vec![
            Some(Request { from: v(0, 1), to: v(2, 1) }),
            Some(Request { from: v(0, 2), to: v(1, 0) }),
        ],
    };
    let mut assignment = vec![vec![0, 3], vec![1]];
    let ins = ilp_step_instructions(&state, &mut assignment, &vec![v(2, 1), v(1, 2)]);
    assert_eq!(ins.removals, vec![ParcelInstruction { robot_id: 0, parcel: 0, vertex: v(2, 1) }]);
    assert_eq!(ins.movements, vec![MoveInstruction { robot_id: 1, vertex: v(1, 2) }]);
    assert_eq!(assignment, vec![vec![3], vec![1]]);
}

#[test]
fn empty_handed_robot_picks_up_on_the_source() {
    let state = State {
        robot_states: vec![
            RobotState { robot_id: 0, vertex: Some(v(0, 1)), parcel_id: None },
            RobotState { robot_id: 1, vertex: Some(v(1, 1)), parcel_id: None },
            RobotState { robot_id: 2, vertex: Some(v(2, 2)), parcel_id: None },
        ],
        requests: vec![Some(Request { from: v(0, 1), to: v(2, 1) })],
    };
    let mut assignment = vec![vec![0], vec![], vec![]];
    let ins = ilp_step_instructions(&state, &mut assignment, &vec![v(0, 1), v(1, 2), v(2, 2)]);
    assert_eq!(ins.placements, vec![ParcelInstruction { robot_id: 0, parcel: 0, vertex: v(0, 1) }]);
    assert_eq!(ins.movements, vec![MoveInstruction { robot_id: 1, vertex: v(1, 2) }]);
    assert!(ins.removals.is_empty());
    assert_eq!(assignment, vec![vec![0], vec![], vec![]]);
}
