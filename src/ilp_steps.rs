//! The receding-horizon step engine: turns the positions an integer program
//! chose for the next step into instructions.
use crate::demand::Request;
use crate::greedy_shortest_paths::{add_instruction, batch_of, Batch};
use crate::instruction::{Instruction, Instructions, MoveInstruction, ParcelInstruction};
use crate::plan::Vertex;
use crate::state::{RobotState, State};
use vstd::prelude::*;

verus! {

/// What robot `r`, in state `rs` with task queue `queue`, is told when the
/// program places it on `target` next: a robot carrying a parcel drops it
/// once on the terminal and moves otherwise; a robot without one picks up
/// its next request once on the source and moves otherwise; a robot with
/// nothing to do moves only if the program moved it.
pub open spec fn ilp_robot_instruction(
    r: int,
    rs: RobotState,
    queue: Seq<usize>,
    requests: Seq<Option<Request>>,
    target: Vertex,
) -> Option<Instruction> {
    match rs.vertex {
        None => None,
        Some(at) => match rs.parcel_id {
            Some(p) => if p < requests.len() && requests[p as int] is Some {
                if at == requests[p as int].unwrap().to {
                    Some(Instruction::Remove(ParcelInstruction { robot_id: r as usize, parcel: p, vertex: at }))
                } else {
                    Some(Instruction::Move(MoveInstruction { robot_id: r as usize, vertex: target }))
                }
            } else {
                None
            },
            None => if queue.len() > 0 {
                let q = queue[0];
                if q < requests.len() && requests[q as int] is Some {
                    if at == requests[q as int].unwrap().from {
                        Some(Instruction::Place(ParcelInstruction { robot_id: r as usize, parcel: q, vertex: at }))
                    } else {
                        Some(Instruction::Move(MoveInstruction { robot_id: r as usize, vertex: target }))
                    }
                } else {
                    None
                }
            } else if target != at {
                Some(Instruction::Move(MoveInstruction { robot_id: r as usize, vertex: target }))
            } else {
                None
            },
        },
    }
}

/// The instructions of the first `k` robots, in id order.
pub open spec fn ilp_batch(
    robots: Seq<RobotState>,
    queues: Seq<Vec<usize>>,
    requests: Seq<Option<Request>>,
    targets: Seq<Vertex>,
    k: int,
) -> Batch
    decreases k,
{
    if k <= 0 {
        (Seq::empty(), Seq::empty(), Seq::empty(), Seq::empty())
    } else {
        add_instruction(
            ilp_batch(robots, queues, requests, targets, k - 1),
            ilp_robot_instruction(k - 1, robots[k - 1], queues[k - 1]@, requests, targets[k - 1]),
        )
    }
}

/// Does robot `r` drop its parcel this step?
pub open spec fn delivers(r: int, rs: RobotState, queue: Seq<usize>, requests: Seq<Option<Request>>, target: Vertex) -> bool {
    ilp_robot_instruction(r, rs, queue, requests, target) matches Some(Instruction::Remove(_))
}

/// Instructions for the robots of `state`, given the vertex the program chose
/// for each; a robot that drops its parcel leaves the head of its queue.
pub fn ilp_step_instructions(state: &State, assignment: &mut Vec<Vec<usize>>, new_locations: &Vec<Vertex>) -> (r: Instructions)
    requires
        old(assignment)@.len() == state.robot_states@.len(),
        new_locations@.len() == state.robot_states@.len(),
    ensures
        batch_of(&r) == ilp_batch(state.robot_states@, old(assignment)@, state.requests@, new_locations@, state.robot_states@.len() as int),
        final(assignment)@.len() == old(assignment)@.len(),
        forall|k: int| 0 <= k < old(assignment)@.len() ==> (#[trigger] final(assignment)@[k])@ == if delivers(
            k,
            state.robot_states@[k],
            old(assignment)@[k]@,
            state.requests@,
            new_locations@[k],
        ) && old(assignment)@[k]@.len() > 0 {
            old(assignment)@[k]@.drop_first()
        } else {
            old(assignment)@[k]@
        },
{
    let n = state.robot_states.len();
    let ghost queues0 = assignment@;
    let mut instructions = Instructions::empty();
    let mut robot: usize = 0;
    while robot < n
        invariant
            n == state.robot_states@.len(),
            queues0 == old(assignment)@,
            assignment@.len() == n,
            new_locations@.len() == n,
            robot <= n,
            forall|k: int| robot <= k < n ==> #[trigger] assignment@[k] == queues0[k],
            forall|k: int| 0 <= k < robot ==> (#[trigger] assignment@[k])@ == if delivers(
                k,
                state.robot_states@[k],
                queues0[k]@,
                state.requests@,
                new_locations@[k],
            ) && queues0[k]@.len() > 0 {
                queues0[k]@.drop_first()
            } else {
                queues0[k]@
            },
            batch_of(&instructions) == ilp_batch(state.robot_states@, queues0, state.requests@, new_locations@, robot as int),
        decreases n - robot,
    {
        let rs = state.robot_states[robot];
        let target = new_locations[robot];
        let ghost before = assignment@;
        let ghost instr = ilp_robot_instruction(robot as int, rs, queues0[robot as int]@, state.requests@, target);
        match rs.vertex {
            None => {},
            Some(at) => match rs.parcel_id {
                Some(p) => {
                    if p < state.requests.len() {
                        match state.requests[p] {
                            Some(q) => {
                                if at == q.to {
                                    instructions.removals.push(ParcelInstruction { robot_id: robot, parcel: p, vertex: at });
                                    let mut queue: Vec<usize> = Vec::new();
                                    std::mem::swap(&mut queue, &mut assignment[robot]);
                                    if queue.len() > 0 {
                                        queue.remove(0);
                                    }
                                    std::mem::swap(&mut queue, &mut assignment[robot]);
                                } else {
                                    instructions.movements.push(MoveInstruction { robot_id: robot, vertex: target });
                                }
                            },
                            None => {},
                        }
                    }
                },
                None => {
                    if assignment[robot].len() > 0 {
                        let head = assignment[robot][0];
                        if head < state.requests.len() {
                            match state.requests[head] {
                                Some(q) => {
                                    if at == q.from {
                                        instructions.placements.push(ParcelInstruction { robot_id: robot, parcel: head, vertex: at });
                                    } else {
                                        instructions.movements.push(MoveInstruction { robot_id: robot, vertex: target });
                                    }
                                },
                                None => {},
                            }
                        }
                    } else if target != at {
                        instructions.movements.push(MoveInstruction { robot_id: robot, vertex: target });
                    }
                },
            },
        }
        assert forall|k: int| 0 <= k < n && k != robot implies #[trigger] assignment@[k] == before[k] by {
            assert(assignment@.len() == before.len());
        }
        robot = robot + 1;
    }
    instructions
}

} // verus!
