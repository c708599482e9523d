use disjoint_path_routing::demand::Request;
use disjoint_path_routing::instruction::{
    IllegalInstruction, Instructions, MoveInstruction, ParcelInstruction, RobotRemovalInstruction,
};
use disjoint_path_routing::one_three_rectangle::OneThreeRectangle;
use disjoint_path_routing::plan::Vertex;
use disjoint_path_routing::simulation::new_state;
use disjoint_path_routing::state::{RobotState, State};

fn v(x: u64, y: u64) -> Vertex {
    Vertex { x, y }
}

fn robot(id: usize, x: u64, y: u64, parcel: Option<usize>) -> RobotState {
    RobotState { robot_id: id, vertex: Some(v(x, y)), parcel_id: parcel }
}

fn state(robots: Vec<RobotState>) -> State {
    State {
        robot_states: robots,
        requests: vec![
            Some(Request { from: v(0, 1), to: v(2, 1) }),
            Some(Request { from: v(1, 0), to: v(1, 2) }),
        ],
    }
}

fn moves(list: &[(usize, u64, u64)]) -> Instructions {
    let mut i = Instructions::empty();
    for &(robot_id, x, y) in list {
        i.movements.push(MoveInstruction { robot_id, vertex: v(x, y) });
    }
    i
}

#[test]
fn empty_batch_keeps_the_state() {
    let plan = OneThreeRectangle::new(3, 3);
    let prev = state(vec![robot(0, 1, 1, Some(0)), robot(1, 0, 0, None)]);
    let next = new_state(&plan, &prev, &Instructions::empty(), 1).ok().unwrap();
    assert_eq!(next.robot_states, prev.robot_states);
    assert_eq!(next.requests, prev.requests);
}

#[test]
fn independent_moves_apply() {
    let plan = OneThreeRectangle::new(3, 3);
    let prev = state(vec![robot(0, 1, 1, Some(0)), robot(1, 0, 0, Some(1))]);
    let next = new_state(&plan, &prev, &moves(&[(0, 2, 1), (1, 0, 1)]), 1).ok().unwrap();
    assert_eq!(next.robot_states[0], robot(0, 2, 1, Some(0)));
    assert_eq!(next.robot_states[1], robot(1, 0, 1, Some(1)));
}

#[test]
fn move_onto_a_staying_robot_is_refused() {
    let plan = OneThreeRectangle::new(3, 3);
    let prev = state(vec![robot(0, 1, 1, Some(0)), robot(1, 1, 0, Some(1))]);
    let result = new_state(&plan, &prev, &moves(&[(0, 2, 1), (1, 1, 1)]), 3);
    match result {
        Err(IllegalInstruction::Move(e)) => {
            assert_eq!(e.instruction, MoveInstruction { robot_id: 1, vertex: v(1, 1) });
            assert_eq!(e.time, 3);
        },
        _ => panic!("expected a refused move"),
    }
}

#[test]
fn following_a_robot_that_leaves_is_allowed() {
    let plan = OneThreeRectangle::new(3, 3);
    let prev = state(vec![robot(0, 1, 1, None), robot(1, 1, 0, None)]);
    let next = new_state(&plan, &prev, &moves(&[(1, 1, 1), (0, 2, 1)]), 1).ok().unwrap();
    assert_eq!(next.robot_states[0].vertex, Some(v(2, 1)));
    assert_eq!(next.robot_states[1].vertex, Some(v(1, 1)));
}

#[test]
fn swap_is_refused() {
    let plan = OneThreeRectangle::new(3, 3);
    let prev = state(vec![robot(0, 1, 1, None), robot(1, 1, 0, None)]);
    assert!(matches!(
        new_state(&plan, &prev, &moves(&[(0, 1, 0), (1, 1, 1)]), 1),
        Err(IllegalInstruction::Move(_))
    ));
}

#[test]
fn two_moves_to_one_vertex_are_refused() {
    let plan = OneThreeRectangle::new(3, 3);
    let prev = state(vec![robot(0, 0, 1, None), robot(1, 1, 0, None)]);
    assert!(matches!(
        new_state(&plan, &prev, &moves(&[(0, 1, 1), (1, 1, 1)]), 1),
        Err(IllegalInstruction::Move(_))
    ));
}

#[test]
fn long_move_is_refused() {
    let plan = OneThreeRectangle::new(3, 3);
    let prev = state(vec![robot(0, 0, 0, None)]);
    assert!(matches!(new_state(&plan, &prev, &moves(&[(0, 1, 1)]), 1), Err(IllegalInstruction::Move(_))));
    assert!(matches!(new_state(&plan, &prev, &moves(&[(3, 0, 1)]), 1), Err(IllegalInstruction::Move(_))));
}

#[test]
fn placement_picks_up_and_checks() {
    let plan = OneThreeRectangle::new(3, 3);
    let prev = state(vec![robot(0, 0, 1, None)]);
    let mut place = Instructions::empty();
    place.placements.push(ParcelInstruction { robot_id: 0, parcel: 0, vertex: v(0, 1) });
    let next = new_state(&plan, &prev, &place, 1).ok().unwrap();
    assert_eq!(next.robot_states[0].parcel_id, Some(0));

    let mut wrong = Instructions::empty();
    wrong.placements.push(ParcelInstruction { robot_id: 0, parcel: 0, vertex: v(1, 1) });
    assert!(matches!(new_state(&plan, &prev, &wrong, 1), Err(IllegalInstruction::Placement(_))));

    let mut gone = Instructions::empty();
    gone.placements.push(ParcelInstruction { robot_id: 0, parcel: 5, vertex: v(0, 1) });
    assert!(matches!(new_state(&plan, &prev, &gone, 1), Err(IllegalInstruction::Placement(_))));
}

#[test]
fn removal_delivers_and_checks() {
    let plan = OneThreeRectangle::new(3, 3);
    let prev = state(vec![robot(0, 2, 1, Some(0)), robot(1, 1, 1, None)]);
    let mut drop = Instructions::empty();
    drop.removals.push(ParcelInstruction { robot_id: 0, parcel: 0, vertex: v(2, 1) });
    let next = new_state(&plan, &prev, &drop, 1).ok().unwrap();
    assert_eq!(next.robot_states[0].parcel_id, None);
    assert_eq!(next.requests[0], None);
    assert!(next.requests[1].is_some());

    let mut empty_handed = Instructions::empty();
    empty_handed.removals.push(ParcelInstruction { robot_id: 1, parcel: 1, vertex: v(1, 1) });
    assert!(matches!(new_state(&plan, &prev, &empty_handed, 1), Err(IllegalInstruction::Removal(_))));

    let mut other = Instructions::empty();
    other.removals.push(ParcelInstruction { robot_id: 0, parcel: 1, vertex: v(2, 1) });
    assert!(matches!(new_state(&plan, &prev, &other, 1), Err(IllegalInstruction::Removal(_))));
}

#[test]
fn robot_removal_takes_the_robot_off() {
    let plan = OneThreeRectangle::new(3, 3);
    let prev = state(vec![robot(0, 2, 1, None), robot(1, 1, 1, Some(1))]);
    let mut off = Instructions::empty();
    off.robot_removals.push(RobotRemovalInstruction { robot_id: 0, vertex: v(2, 1) });
    let next = new_state(&plan, &prev, &off, 1).ok().unwrap();
    assert_eq!(next.robot_states[0].vertex, None);

    let mut elsewhere = Instructions::empty();
    elsewhere.robot_removals.push(RobotRemovalInstruction { robot_id: 0, vertex: v(0, 0) });
    assert!(matches!(new_state(&plan, &prev, &elsewhere, 1), Err(IllegalInstruction::RobotRemoval(_))));

    let mut loaded = Instructions::empty();
    loaded.robot_removals.push(RobotRemovalInstruction { robot_id: 1, vertex: v(1, 1) });
    assert!(matches!(new_state(&plan, &prev, &loaded, 1), Err(IllegalInstruction::RobotRemoval(_))));
}

#[test]
fn a_line_of_robots_may_follow_its_leader() {
    let plan = OneThreeRectangle::new(3, 3);
    let prev = state(vec![robot(0, 0, 1, None), robot(1, 1, 1, None)]);
    // Robot 1 leaves (1,1) later in the batch, so robot 0 may take it.
    let next = new_state(&plan, &prev, &moves(&[(0, 1, 1), (1, 2, 1)]), 1).ok().unwrap();
    assert_eq!(next.robot_states[0].vertex, Some(v(1, 1)));
    assert_eq!(next.robot_states[1].vertex, Some(v(2, 1)));
}

#[test]
fn first_failing_instruction_is_reported() {
    let plan = OneThreeRectangle::new(3, 3);
    let prev = state(vec![robot(0, 0, 1, Some(0)), robot(1, 2, 2, None)]);
    let mut batch = Instructions::empty();
    batch.removals.push(ParcelInstruction { robot_id: 0, parcel: 0, vertex: v(0, 1) });
    batch.removals.push(ParcelInstruction { robot_id: 1, parcel: 1, vertex: v(2, 2) });
    batch.removals.push(ParcelInstruction { robot_id: 0, parcel: 1, vertex: v(0, 1) });
    match new_state(&plan, &prev, &batch, 4) {
        Err(IllegalInstruction::Removal(e)) => {
            assert_eq!(e.instruction, ParcelInstruction { robot_id: 1, parcel: 1, vertex: v(2, 2) });
            assert_eq!(e.time, 4);
        },
        _ => panic!("expected a refused removal"),
    }
}

#[test]
fn robots_without_instructions_keep_their_state() {
    let plan = OneThreeRectangle::new(3, 3);
    let prev = state(vec![robot(0, 0, 1, Some(0)), robot(1, 2, 2, None)]);
    let next = new_state(&plan, &prev, &moves(&[(1, 2, 1)]), 1).ok().unwrap();
    assert_eq!(next.robot_states[0], prev.robot_states[0]);
}
