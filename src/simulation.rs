//! The step kernel: checks a batch of instructions against the previous
//! state and applies it as a whole, or refuses it.
use crate::demand::Request;
use crate::instruction::{
    IllegalInstruction, IllegalMoveError, IllegalPlacementError, IllegalRemovalError,
    IllegalRobotRemovalError, Instruction, Instructions, MoveInstruction, ParcelInstruction,
    RobotRemovalInstruction,
};
use crate::demand::{sample_indices, Uniform};
use crate::greedy_shortest_paths::GreedyShortestPaths;
use crate::plan::{manhattan, Plan, Vertex};
use crate::settings::Settings;
use crate::state::{
    all_done,     no_collisions, no_swaps, requests_shrink, robots_wf, unit_moves, valid_step, History, RobotState, State,
};
use vstd::prelude::*;

verus! {

broadcast use crate::seq_facts::lemma_push_contains;

/// Is `v` in `used`?
pub fn contains_vertex(used: &Vec<Vertex>, v: Vertex) -> (r: bool)
    ensures
        r == used@.contains(v),
{
    let mut i: usize = 0;
    while i < used.len()
        invariant
            i <= used@.len(),
            forall|j: int| 0 <= j < i ==> used@[j] != v,
        decreases used@.len() - i,
    {
        if used[i] == v {
            return true;
        }
        i = i + 1;
    }
    false
}

/// Are `a` and `b` equal or adjacent?
fn within_one(a: Vertex, b: Vertex) -> (r: bool)
    ensures
        r == (manhattan(a, b) <= 1),
{
    let dx: u64 = if a.x >= b.x { a.x - b.x } else { b.x - a.x };
    let dy: u64 = if a.y >= b.y { a.y - b.y } else { b.y - a.y };
    dx <= 1 && dy <= 1 && !(dx == 1 && dy == 1)
}

/// Does a move after position `k` of the batch take robot `robot` off
/// `from`?
pub open spec fn vacates_after(moves: Seq<MoveInstruction>, k: int, robot: int, from: Vertex) -> bool {
    exists|m: int| k < m < moves.len() && (#[trigger] moves[m]).robot_id == robot && moves[m].vertex != from
}

fn will_vacate(moves: &Vec<MoveInstruction>, k: usize, robot: usize, from: Vertex) -> (r: bool)
    ensures
        r == vacates_after(moves@, k as int, robot as int, from),
{
    if k >= moves.len() {
        return false;
    }
    let mut m: usize = k + 1;
    while m < moves.len()
        invariant
            k < m,
            forall|j: int| k < j < m ==> !((#[trigger] moves@[j]).robot_id == robot && moves@[j].vertex != from),
        decreases moves@.len() - m,
    {
        if moves[m].robot_id == robot && moves[m].vertex != from {
            return true;
        }
        m = m + 1;
    }
    false
}

/// A robot other than `robot` stood on `v` and does not leave it in the rest
/// of the batch.
pub open spec fn held_by_other(prev: Seq<RobotState>, moves: Seq<MoveInstruction>, k: int, robot: int, v: Vertex) -> bool {
    exists|o: int|
        0 <= o < prev.len() && o != robot && (#[trigger] prev[o]).vertex == Some(v) && !vacates_after(moves, k, o, v)
}

fn is_held_by_other(prev: &Vec<RobotState>, moves: &Vec<MoveInstruction>, k: usize, robot: usize, v: Vertex) -> (r: bool)
    ensures
        r == held_by_other(prev@, moves@, k as int, robot as int, v),
{
    let mut o: usize = 0;
    while o < prev.len()
        invariant
            o <= prev@.len(),
            forall|j: int|
                0 <= j < o ==> !(j != robot && (#[trigger] prev@[j]).vertex == Some(v) && !vacates_after(moves@, k as int, j, v)),
        decreases prev@.len() - o,
    {
        if o != robot && prev[o].vertex == Some(v) && !will_vacate(moves, k, o, v) {
            return true;
        }
        o = o + 1;
    }
    false
}

/// Two robots share a vertex only while one of them still has to leave it
/// by a move after position `k`.
spec fn conflicts_pending(
    prev: Seq<RobotState>,
    new: Seq<RobotState>,
    moved: Seq<bool>,
    moves: Seq<MoveInstruction>,
    k: int,
) -> bool {
    forall|i: int, j: int|
        0 <= i < new.len() && 0 <= j < new.len() && i != j && (#[trigger] new[i]).vertex is Some && new[i].vertex
            == (#[trigger] new[j]).vertex ==> (!moved[j] && vacates_after(moves, k, j, prev[j].vertex.unwrap()))
            || (!moved[i] && vacates_after(moves, k, i, prev[i].vertex.unwrap()))
}

/// A vertex taken by the first `k` moves: the target or the origin of one.
pub open spec fn used_by_moves(prev: Seq<RobotState>, moves: Seq<MoveInstruction>, k: int, u: Vertex) -> bool {
    exists|j: int| 0 <= j < k && (u == (#[trigger] moves[j]).vertex || Some(u) == prev[moves[j].robot_id as int].vertex)
}

/// Is move `k` accepted after the moves before it? Its robot is known, on
/// the floor and not moved yet; the target is at most one step away, not
/// taken by an earlier move, and not the vertex of another robot that does
/// not leave it later in the batch.
pub open spec fn move_legal(prev: Seq<RobotState>, moves: Seq<MoveInstruction>, k: int) -> bool {
    let m = moves[k];
    &&& m.robot_id < prev.len()
    &&& prev[m.robot_id as int].vertex is Some
    &&& !(exists|j: int| 0 <= j < k && (#[trigger] moves[j]).robot_id == m.robot_id)
    &&& manhattan(prev[m.robot_id as int].vertex.unwrap(), m.vertex) <= 1
    &&& !used_by_moves(prev, moves, k, m.vertex)
    &&& !held_by_other(prev, moves, k, m.robot_id as int, m.vertex)
}

/// `legal` fails for the first time at position `k` of a batch of length `n`.
pub open spec fn first_failure(legal: spec_fn(int) -> bool, n: int, k: int) -> bool {
    0 <= k < n && !legal(k) && forall|j: int| 0 <= j < k ==> #[trigger] legal(j)
}

/// Applies the moves in order. A move is refused for an unknown robot, a
/// robot off the floor or already moved, a target further than one step, a
/// target already taken this step (as a target or as the origin of a move),
/// or a target where another robot stood and does not leave. Each accepted
/// move takes its target and its origin.
#[verifier::rlimit(60)]
pub fn process_move_instructions(
    prev: &Vec<RobotState>,
    moves: &Vec<MoveInstruction>,
    new_states: &mut Vec<RobotState>,
    used: &mut Vec<Vertex>,
    time: usize,
) -> (r: Result<(), IllegalMoveError>)
    requires
        old(new_states)@ == prev@,
        old(used)@.len() == 0,
        robots_wf(prev@),
        no_collisions(prev@),
    ensures
        r is Ok ==> {
            &&& final(new_states)@.len() == prev@.len()
            &&& forall|i: int| 0 <= i < prev@.len() ==> (#[trigger] final(new_states)@[i]).robot_id == prev@[i].robot_id
                && final(new_states)@[i].parcel_id == prev@[i].parcel_id
            &&& no_collisions(final(new_states)@)
            &&& unit_moves(prev@, final(new_states)@)
            &&& no_swaps(prev@, final(new_states)@)
            &&& forall|i: int| 0 <= i < prev@.len() ==> (#[trigger] final(new_states)@[i]).vertex == prev@[i].vertex
                || (prev@[i].vertex is Some && final(used)@.contains(prev@[i].vertex.unwrap()))
            &&& forall|i: int| 0 <= i < prev@.len() && prev@[i].vertex is Some ==> (#[trigger] final(new_states)@[i]).vertex is Some
            &&& forall|m: int| 0 <= m < moves@.len() ==> (#[trigger] moves@[m]).robot_id < prev@.len()
                && final(new_states)@[moves@[m].robot_id as int].vertex == Some(moves@[m].vertex)
            &&& forall|u: Vertex| #[trigger] final(used)@.contains(u) <==> used_by_moves(prev@, moves@, moves@.len() as int, u)
            &&& forall|i: int| 0 <= i < prev@.len() && !(exists|m: int| 0 <= m < moves@.len() && (#[trigger] moves@[m]).robot_id == i)
                ==> #[trigger] final(new_states)@[i] == prev@[i]
        },
        r is Ok <==> forall|k: int| 0 <= k < moves@.len() ==> move_legal(prev@, moves@, k),
        r matches Err(e) ==> e.time == time && exists|k: int|
            first_failure(|j: int| move_legal(prev@, moves@, j), moves@.len() as int, k) && moves@[k] == e.instruction,
{
    let n = prev.len();
    let mut moved: Vec<bool> = vec![false; n];
    let mut k: usize = 0;
    while k < moves.len()
        invariant
            n == prev@.len(),
            robots_wf(prev@),
            no_collisions(prev@),
            k <= moves@.len(),
            new_states@.len() == n,
            moved@.len() == n,
            forall|i: int| 0 <= i < n ==> (#[trigger] new_states@[i]).robot_id == prev@[i].robot_id
                && new_states@[i].parcel_id == prev@[i].parcel_id,
            forall|i: int| 0 <= i < n && !(#[trigger] moved@[i]) ==> new_states@[i] == prev@[i],
            forall|i: int| 0 <= i < n && #[trigger] moved@[i] ==> {
                &&& prev@[i].vertex is Some
                &&& new_states@[i].vertex is Some
                &&& manhattan(prev@[i].vertex.unwrap(), new_states@[i].vertex.unwrap()) <= 1
                &&& used@.contains(prev@[i].vertex.unwrap())
                &&& used@.contains(new_states@[i].vertex.unwrap())
            },
            forall|m: int| 0 <= m < k ==> (#[trigger] moves@[m]).robot_id < n && moved@[moves@[m].robot_id as int]
                && new_states@[moves@[m].robot_id as int].vertex == Some(moves@[m].vertex),
            conflicts_pending(prev@, new_states@, moved@, moves@, k - 1),
            no_swaps(prev@, new_states@),
            forall|u: Vertex| #[trigger] used@.contains(u) <==> used_by_moves(prev@, moves@, k as int, u),
            forall|i: int| 0 <= i < n ==> (#[trigger] moved@[i] <==> exists|m: int| 0 <= m < k && (#[trigger] moves@[m]).robot_id == i),
            forall|j: int| 0 <= j < k ==> move_legal(prev@, moves@, j),
        decreases moves@.len() - k,
    {
        let instruction = moves[k];
        let ghost bad = !move_legal(prev@, moves@, k as int);
        proof {
            assert(moves@[k as int] == instruction);
            if bad {
                assert(first_failure(|j: int| move_legal(prev@, moves@, j), moves@.len() as int, k as int));
            }
        }
        let robot = instruction.robot_id;
        let target = instruction.vertex;
        if robot >= n {
            return Err(IllegalMoveError::from(instruction, "Unknown robot".to_owned(), time));
        }
        let origin = match prev[robot].vertex {
            None => {
                return Err(IllegalMoveError::from(instruction, "Robot is off the floor".to_owned(), time));
            },
            Some(v) => v,
        };
        if moved[robot] {
            return Err(IllegalMoveError::from(instruction, "Robot already moved in this step".to_owned(), time));
        }
        if !within_one(origin, target) {
            return Err(IllegalMoveError::from(instruction, "Only one move at a time".to_owned(), time));
        }
        if contains_vertex(used, target) {
            return Err(IllegalMoveError::from(instruction, "Vertex already used in next time step".to_owned(), time));
        }
        if is_held_by_other(prev, moves, k, robot, target) {
            return Err(IllegalMoveError::from(instruction, "Vertex held by a robot that stays".to_owned(), time));
        }
        let ghost new0 = new_states@;
        let ghost moved0 = moved@;
        let ghost used0 = used@;
        new_states.set(robot, RobotState { robot_id: robot, vertex: Some(target), parcel_id: prev[robot].parcel_id });
        moved.set(robot, true);
        used.push(origin);
        used.push(target);
        assert(used@ == used0.push(origin).push(target));
        proof {
            lemma_move_step(prev@, new0, new_states@, moved0, moved@, used0, used@, moves@, k as int, robot as int, origin, target);
            assert forall|u: Vertex| #[trigger] used@.contains(u) <==> used_by_moves(prev@, moves@, k + 1, u) by {
                if used0.contains(u) {
                    assert(used_by_moves(prev@, moves@, k as int, u));
                    let j = choose|j: int| 0 <= j < k && (u == (#[trigger] moves@[j]).vertex || Some(u) == prev@[moves@[j].robot_id as int].vertex);
                    assert(used_by_moves(prev@, moves@, k + 1, u));
                }
                if u == origin || u == target {
                    assert(moves@[k as int] == instruction);
                    assert(used_by_moves(prev@, moves@, k + 1, u));
                }
                if used_by_moves(prev@, moves@, k + 1, u) {
                    let j = choose|j: int| 0 <= j < k + 1 && (u == (#[trigger] moves@[j]).vertex || Some(u) == prev@[moves@[j].robot_id as int].vertex);
                    if j < k {
                        assert(used_by_moves(prev@, moves@, k as int, u));
                    }
                }
            }
            assert forall|i: int| 0 <= i < n implies (#[trigger] moved@[i] <==> exists|m: int| 0 <= m < k + 1 && (#[trigger] moves@[m]).robot_id == i) by {
                if i != robot {
                    if exists|m: int| 0 <= m < k + 1 && (#[trigger] moves@[m]).robot_id == i {
                        let m = choose|m: int| 0 <= m < k + 1 && (#[trigger] moves@[m]).robot_id == i;
                        assert(m != k);
                    }
                } else {
                    assert(moves@[k as int].robot_id == i);
                }
            }
            assert(move_legal(prev@, moves@, k as int));
        }
        k = k + 1;
    }
    proof {
        assert forall|i: int, j: int|
            0 <= i < n && 0 <= j < n && i != j && (#[trigger] new_states@[i]).vertex is Some implies new_states@[i].vertex
                != (#[trigger] new_states@[j]).vertex by {
            if new_states@[i].vertex == new_states@[j].vertex {
                assert(!vacates_after(moves@, k - 1, j, prev@[j].vertex.unwrap()));
                assert(!vacates_after(moves@, k - 1, i, prev@[i].vertex.unwrap()));
            }
        }
        assert forall|i: int| 0 <= i < n && (#[trigger] new_states@[i]).vertex is Some implies prev@[i].vertex is Some && manhattan(
            prev@[i].vertex.unwrap(),
            new_states@[i].vertex.unwrap(),
        ) <= 1 by {
            if !moved@[i] {
                assert(new_states@[i] == prev@[i]);
            }
        }
        assert forall|i: int| 0 <= i < n implies (#[trigger] new_states@[i]).vertex == prev@[i].vertex
                || (prev@[i].vertex is Some && used@.contains(prev@[i].vertex.unwrap())) by {
            if !moved@[i] {
                assert(new_states@[i] == prev@[i]);
            }
        }
        assert forall|i: int| 0 <= i < n && !(exists|m: int| 0 <= m < moves@.len() && (#[trigger] moves@[m]).robot_id == i)
            implies #[trigger] new_states@[i] == prev@[i] by {
            assert(!moved@[i]);
        }
        assert forall|i: int| 0 <= i < n && prev@[i].vertex is Some implies (#[trigger] new_states@[i]).vertex is Some by {
            if !moved@[i] {
                assert(new_states@[i] == prev@[i]);
            }
        }
    }
    Ok(())
}

/// Is placement `k` accepted after the placements before it? The robot is
/// known and stands on the vertex, the vertex was not taken by a move
/// (`used`) or an earlier placement, and the parcel is still pending.
pub open spec fn placement_legal(
    prev: Seq<RobotState>,
    used: Seq<Vertex>,
    requests: Seq<Option<Request>>,
    placements: Seq<ParcelInstruction>,
    k: int,
) -> bool {
    let m = placements[k];
    &&& m.robot_id < prev.len()
    &&& prev[m.robot_id as int].vertex == Some(m.vertex)
    &&& !used.contains(m.vertex)
    &&& !(exists|j: int| 0 <= j < k && (#[trigger] placements[j]).vertex == m.vertex)
    &&& m.parcel < requests.len()
    &&& requests[m.parcel as int] is Some
}

/// Is a parcel removal accepted? The robot is known and stands on the
/// vertex, which is in the plan, carrying that parcel.
pub open spec fn removal_legal<P: Plan>(plan: &P, prev: Seq<RobotState>, m: ParcelInstruction) -> bool {
    &&& m.robot_id < prev.len()
    &&& plan.spec_contains(m.vertex)
    &&& prev[m.robot_id as int].vertex == Some(m.vertex)
    &&& prev[m.robot_id as int].parcel_id == Some(m.parcel)
}

/// Is a robot removal accepted, given each robot's parcel after the parcel
/// instructions (`current`)? The robot is known, stood on the vertex and
/// carries nothing.
pub open spec fn robot_removal_legal(prev: Seq<RobotState>, current: Seq<RobotState>, m: RobotRemovalInstruction) -> bool {
    &&& m.robot_id < prev.len()
    &&& prev[m.robot_id as int].vertex == Some(m.vertex)
    &&& current[m.robot_id as int].parcel_id is None
}

/// Applies the placements in order. A placement is refused for an unknown
/// robot, a robot not at the vertex, a vertex already taken this step, or a
/// parcel that is no longer pending. The robot stays and takes the parcel;
/// the vertex counts as taken.
pub fn process_placement_instructions(
    prev: &Vec<RobotState>,
    placements: &Vec<ParcelInstruction>,
    new_states: &mut Vec<RobotState>,
    used: &mut Vec<Vertex>,
    requests: &Vec<Option<Request>>,
    time: usize,
) -> (r: Result<(), IllegalPlacementError>)
    requires
        old(new_states)@.len() == prev@.len(),
        forall|i: int| 0 <= i < prev@.len() ==> (#[trigger] old(new_states)@[i]).vertex == prev@[i].vertex
            || (prev@[i].vertex is Some && old(used)@.contains(prev@[i].vertex.unwrap())),
    ensures
        r is Ok ==> {
            &&& final(new_states)@.len() == prev@.len()
            &&& forall|i: int| 0 <= i < prev@.len() ==> (#[trigger] final(new_states)@[i]).vertex == old(new_states)@[i].vertex
                && final(new_states)@[i].robot_id == old(new_states)@[i].robot_id
            &&& forall|i: int| 0 <= i < prev@.len() ==> (#[trigger] final(new_states)@[i]).parcel_id == old(new_states)@[i].parcel_id
                || (final(new_states)@[i].parcel_id is Some && final(new_states)@[i].vertex is Some)
            &&& forall|u: Vertex| old(used)@.contains(u) ==> #[trigger] final(used)@.contains(u)
            &&& forall|m: int| 0 <= m < placements@.len() ==> (#[trigger] placements@[m]).robot_id < prev@.len()
                && final(new_states)@[placements@[m].robot_id as int].parcel_id == Some(placements@[m].parcel)
            &&& forall|i: int| 0 <= i < prev@.len() && !(exists|m: int| 0 <= m < placements@.len() && (#[trigger] placements@[m]).robot_id == i)
                ==> #[trigger] final(new_states)@[i] == old(new_states)@[i]
        },
        r is Ok <==> forall|k: int| 0 <= k < placements@.len() ==> placement_legal(prev@, old(used)@, requests@, placements@, k),
        r matches Err(e) ==> e.time == time && exists|k: int|
            first_failure(|j: int| placement_legal(prev@, old(used)@, requests@, placements@, j), placements@.len() as int, k)
                && placements@[k] == e.instruction,
{
    let n = prev.len();
    let ghost entry = new_states@;
    let ghost used0 = used@;
    let mut k: usize = 0;
    while k < placements.len()
        invariant
            n == prev@.len(),
            entry.len() == n,
            used0 == old(used)@,
            entry == old(new_states)@,
            k <= placements@.len(),
            new_states@.len() == n,
            forall|i: int| 0 <= i < n ==> (#[trigger] entry[i]).vertex == prev@[i].vertex
                || (prev@[i].vertex is Some && used0.contains(prev@[i].vertex.unwrap())),
            forall|i: int| 0 <= i < n ==> (#[trigger] new_states@[i]).vertex == entry[i].vertex
                && new_states@[i].robot_id == entry[i].robot_id,
            forall|i: int| 0 <= i < n ==> (#[trigger] new_states@[i]).parcel_id == entry[i].parcel_id
                || (new_states@[i].parcel_id is Some && new_states@[i].vertex is Some),
            forall|u: Vertex| used0.contains(u) ==> #[trigger] used@.contains(u),
            forall|m: int| 0 <= m < k ==> (#[trigger] placements@[m]).robot_id < n
                && new_states@[placements@[m].robot_id as int].parcel_id == Some(placements@[m].parcel)
                && used@.contains(placements@[m].vertex)
                && prev@[placements@[m].robot_id as int].vertex == Some(placements@[m].vertex),
            forall|i: int| 0 <= i < n && (#[trigger] new_states@[i]).parcel_id != entry[i].parcel_id ==>
                exists|m: int| 0 <= m < k && (#[trigger] placements@[m]).robot_id == i,
            forall|i: int| 0 <= i < n && !(exists|m: int| 0 <= m < k && (#[trigger] placements@[m]).robot_id == i)
                ==> #[trigger] new_states@[i] == entry[i],
            forall|u: Vertex| #[trigger] used@.contains(u) <==> (used0.contains(u) || exists|j: int| 0 <= j < k && (#[trigger] placements@[j]).vertex == u),
            forall|j: int| 0 <= j < k ==> placement_legal(prev@, used0, requests@, placements@, j),
        decreases placements@.len() - k,
    {
        let instruction = placements[k];
        proof {
            assert(placements@[k as int] == instruction);
            if !placement_legal(prev@, used0, requests@, placements@, k as int) {
                assert(first_failure(|j: int| placement_legal(prev@, used0, requests@, placements@, j), placements@.len() as int, k as int));
            }
        }
        let robot = instruction.robot_id;
        let vertex = instruction.vertex;
        if robot >= n {
            return Err(IllegalPlacementError::from(instruction, "Unknown robot".to_owned(), time));
        }
        if prev[robot].vertex != Some(vertex) {
            return Err(IllegalPlacementError::from(instruction, "Robot is not at this location".to_owned(), time));
        }
        if contains_vertex(used, vertex) {
            return Err(IllegalPlacementError::from(instruction, "Vertex already used in next time step".to_owned(), time));
        }
        if instruction.parcel >= requests.len() || requests[instruction.parcel].is_none() {
            return Err(IllegalPlacementError::from(instruction, "Parcel no longer needed".to_owned(), time));
        }
        let ghost new0 = new_states@;
        let ghost usedk = used@;
        assert(new0[robot as int].vertex == Some(vertex));
        let current = new_states[robot];
        new_states.set(robot, RobotState { robot_id: current.robot_id, vertex: Some(vertex), parcel_id: Some(instruction.parcel) });
        used.push(vertex);
        assert forall|m: int| 0 <= m < k + 1 implies (#[trigger] placements@[m]).robot_id < n
            && new_states@[placements@[m].robot_id as int].parcel_id == Some(placements@[m].parcel)
            && used@.contains(placements@[m].vertex)
            && prev@[placements@[m].robot_id as int].vertex == Some(placements@[m].vertex) by {
            if m < k {
                let o = placements@[m].robot_id as int;
                if o == robot {
                    assert(usedk.contains(placements@[m].vertex));
                }
            }
        }
        assert forall|u: Vertex| #[trigger] used@.contains(u) <==> (used0.contains(u) || exists|j: int| 0 <= j < k + 1 && (#[trigger] placements@[j]).vertex == u) by {
            if u == vertex {
                assert(placements@[k as int].vertex == u);
            }
            if exists|j: int| 0 <= j < k + 1 && (#[trigger] placements@[j]).vertex == u {
                let j = choose|j: int| 0 <= j < k + 1 && (#[trigger] placements@[j]).vertex == u;
                if j < k {
                    assert(usedk.contains(u));
                }
            }
        }
        assert forall|i: int| 0 <= i < n && !(exists|m: int| 0 <= m < k + 1 && (#[trigger] placements@[m]).robot_id == i)
            implies #[trigger] new_states@[i] == entry[i] by {
            assert(placements@[k as int].robot_id != i);
            assert(new_states@[i] == new0[i]);
        }
        assert(placement_legal(prev@, used0, requests@, placements@, k as int));
        assert forall|i: int| 0 <= i < n && (#[trigger] new_states@[i]).parcel_id != entry[i].parcel_id implies
            exists|m: int| 0 <= m < k + 1 && (#[trigger] placements@[m]).robot_id == i by {
            if i == robot {
                assert(placements@[k as int].robot_id == i);
            } else {
                assert(new_states@[i] == new0[i]);
                let m = choose|m: int| 0 <= m < k && (#[trigger] placements@[m]).robot_id == i;
                assert(0 <= m < k + 1 && placements@[m].robot_id == i);
            }
        }
        k = k + 1;
    }
    Ok(())
}

/// Applies the parcel removals in order. A removal is refused for an
/// unknown robot, a vertex outside the plan, a robot not at the vertex, or
/// a robot that does not carry that parcel. The robot drops the parcel and
/// its request is no longer pending.
pub fn process_removal_instructions<P: Plan>(
    plan: &P,
    prev: &Vec<RobotState>,
    removals: &Vec<ParcelInstruction>,
    new_states: &mut Vec<RobotState>,
    requests: &mut Vec<Option<Request>>,
    time: usize,
) -> (r: Result<(), IllegalRemovalError>)
    requires
        plan.wf(),
        old(new_states)@.len() == prev@.len(),
    ensures
        r is Ok ==> {
            &&& final(new_states)@.len() == prev@.len()
            &&& forall|i: int| 0 <= i < prev@.len() ==> (#[trigger] final(new_states)@[i]).vertex == old(new_states)@[i].vertex
                && final(new_states)@[i].robot_id == old(new_states)@[i].robot_id
                && (final(new_states)@[i].parcel_id == old(new_states)@[i].parcel_id || final(new_states)@[i].parcel_id is None)
            &&& final(requests)@.len() == old(requests)@.len()
            &&& forall|id: int| 0 <= id < old(requests)@.len() ==> (#[trigger] final(requests)@[id]) == old(requests)@[id]
                || (final(requests)@[id] is None && exists|m: int| 0 <= m < removals@.len() && (#[trigger] removals@[m]).parcel == id)
            &&& forall|m: int| 0 <= m < removals@.len() && (#[trigger] removals@[m]).parcel < old(requests)@.len() ==>
                final(requests)@[removals@[m].parcel as int] is None
            &&& forall|m: int| 0 <= m < removals@.len() ==> (#[trigger] removals@[m]).robot_id < prev@.len()
                && final(new_states)@[removals@[m].robot_id as int].parcel_id is None
            &&& forall|i: int| 0 <= i < prev@.len() && !(exists|m: int| 0 <= m < removals@.len() && (#[trigger] removals@[m]).robot_id == i)
                ==> #[trigger] final(new_states)@[i] == old(new_states)@[i]
        },
        r is Ok <==> forall|k: int| 0 <= k < removals@.len() ==> removal_legal(plan, prev@, #[trigger] removals@[k]),
        r matches Err(e) ==> e.time == time && exists|k: int|
            first_failure(|j: int| removal_legal(plan, prev@, removals@[j]), removals@.len() as int, k) && removals@[k] == e.instruction,
{
    let n = prev.len();
    let ghost entry = new_states@;
    let ghost req0 = requests@;
    let mut k: usize = 0;
    while k < removals.len()
        invariant
            plan.wf(),
            n == prev@.len(),
            k <= removals@.len(),
            new_states@.len() == n,
            requests@.len() == req0.len(),
            forall|i: int| 0 <= i < n ==> (#[trigger] new_states@[i]).vertex == entry[i].vertex
                && new_states@[i].robot_id == entry[i].robot_id
                && (new_states@[i].parcel_id == entry[i].parcel_id || new_states@[i].parcel_id is None),
            forall|id: int| 0 <= id < req0.len() ==> (#[trigger] requests@[id]) == req0[id]
                || (requests@[id] is None && exists|m: int| 0 <= m < removals@.len() && (#[trigger] removals@[m]).parcel == id),
            forall|m: int| 0 <= m < k && (#[trigger] removals@[m]).parcel < req0.len() ==> requests@[removals@[m].parcel as int] is None,
            entry == old(new_states)@,
            forall|j: int| 0 <= j < k ==> removal_legal(plan, prev@, #[trigger] removals@[j]),
            forall|m: int| 0 <= m < k ==> (#[trigger] removals@[m]).robot_id < n && new_states@[removals@[m].robot_id as int].parcel_id is None,
            forall|i: int| 0 <= i < n && !(exists|m: int| 0 <= m < k && (#[trigger] removals@[m]).robot_id == i)
                ==> #[trigger] new_states@[i] == entry[i],
        decreases removals@.len() - k,
    {
        let instruction = removals[k];
        proof {
            assert(removals@[k as int] == instruction);
            if !removal_legal(plan, prev@, instruction) {
                assert(first_failure(|j: int| removal_legal(plan, prev@, removals@[j]), removals@.len() as int, k as int));
            }
        }
        let robot = instruction.robot_id;
        let vertex = instruction.vertex;
        if robot >= n {
            return Err(IllegalRemovalError::from(instruction, "Unknown robot".to_owned(), time));
        }
        if !plan.contains(&vertex) {
            return Err(IllegalRemovalError::from(instruction, "Vertex not part of the plan".to_owned(), time));
        }
        if prev[robot].vertex != Some(vertex) {
            return Err(IllegalRemovalError::from(instruction, "Robot is not at this location".to_owned(), time));
        }
        match prev[robot].parcel_id {
            None => {
                return Err(IllegalRemovalError::from(instruction, "Robot has no parcel".to_owned(), time));
            },
            Some(parcel) => {
                if parcel != instruction.parcel {
                    return Err(IllegalRemovalError::from(instruction, "Robot holds other parcel".to_owned(), time));
                }
            },
        }
        let current = new_states[robot];
        new_states.set(robot, RobotState { robot_id: current.robot_id, vertex: current.vertex, parcel_id: None });
        if instruction.parcel < requests.len() {
            requests.set(instruction.parcel, None);
        }
        assert forall|id: int| 0 <= id < req0.len() implies (#[trigger] requests@[id]) == req0[id]
            || (requests@[id] is None && exists|m: int| 0 <= m < removals@.len() && (#[trigger] removals@[m]).parcel == id) by {
            if id == instruction.parcel {
                assert(removals@[k as int].parcel == id);
            }
        }
        assert forall|i: int| 0 <= i < n && !(exists|m: int| 0 <= m < k + 1 && (#[trigger] removals@[m]).robot_id == i)
            implies #[trigger] new_states@[i] == entry[i] by {
            assert(removals@[k as int].robot_id != i);
        }
        assert(removal_legal(plan, prev@, removals@[k as int]));
        k = k + 1;
    }
    Ok(())
}

/// Applies the robot removals in order. A removal is refused for an unknown
/// robot, a robot not at the vertex, or a robot still carrying a parcel. The
/// robot leaves the floor.
pub fn process_robot_removal_instructions(
    prev: &Vec<RobotState>,
    robot_removals: &Vec<RobotRemovalInstruction>,
    new_states: &mut Vec<RobotState>,
    time: usize,
) -> (r: Result<(), IllegalRobotRemovalError>)
    requires
        old(new_states)@.len() == prev@.len(),
    ensures
        r is Ok ==> {
            &&& final(new_states)@.len() == prev@.len()
            &&& forall|i: int| 0 <= i < prev@.len() ==> (#[trigger] final(new_states)@[i]).parcel_id == old(new_states)@[i].parcel_id
                && final(new_states)@[i].robot_id == old(new_states)@[i].robot_id
                && (final(new_states)@[i].vertex == old(new_states)@[i].vertex || (final(new_states)@[i].vertex is None && final(new_states)@[i].parcel_id is None))
            &&& forall|m: int| 0 <= m < robot_removals@.len() ==> (#[trigger] robot_removals@[m]).robot_id < prev@.len()
                && final(new_states)@[robot_removals@[m].robot_id as int].vertex is None
            &&& forall|i: int| 0 <= i < prev@.len() && !(exists|m: int| 0 <= m < robot_removals@.len() && (#[trigger] robot_removals@[m]).robot_id == i)
                ==> #[trigger] final(new_states)@[i] == old(new_states)@[i]
        },
        r is Ok <==> forall|k: int| 0 <= k < robot_removals@.len() ==> robot_removal_legal(prev@, old(new_states)@, #[trigger] robot_removals@[k]),
        r matches Err(e) ==> e.time == time && exists|k: int|
            first_failure(|j: int| robot_removal_legal(prev@, old(new_states)@, robot_removals@[j]), robot_removals@.len() as int, k)
                && robot_removals@[k] == e.instruction,
{
    let n = prev.len();
    let ghost entry = new_states@;
    let mut k: usize = 0;
    while k < robot_removals.len()
        invariant
            n == prev@.len(),
            k <= robot_removals@.len(),
            new_states@.len() == n,
            forall|i: int| 0 <= i < n ==> (#[trigger] new_states@[i]).parcel_id == entry[i].parcel_id
                && new_states@[i].robot_id == entry[i].robot_id
                && (new_states@[i].vertex == entry[i].vertex || (new_states@[i].vertex is None && new_states@[i].parcel_id is None)),
            forall|m: int| 0 <= m < k ==> (#[trigger] robot_removals@[m]).robot_id < n
                && new_states@[robot_removals@[m].robot_id as int].vertex is None,
            entry == old(new_states)@,
            forall|j: int| 0 <= j < k ==> robot_removal_legal(prev@, entry, #[trigger] robot_removals@[j]),
            forall|i: int| 0 <= i < n && !(exists|m: int| 0 <= m < k && (#[trigger] robot_removals@[m]).robot_id == i)
                ==> #[trigger] new_states@[i] == entry[i],
        decreases robot_removals@.len() - k,
    {
        let instruction = robot_removals[k];
        proof {
            assert(robot_removals@[k as int] == instruction);
            if !robot_removal_legal(prev@, entry, instruction) {
                assert(first_failure(|j: int| robot_removal_legal(prev@, entry, robot_removals@[j]), robot_removals@.len() as int, k as int));
            }
        }
        let robot = instruction.robot_id;
        if robot >= n {
            return Err(IllegalRobotRemovalError::from(instruction, "Unknown robot".to_owned(), time));
        }
        if prev[robot].vertex != Some(instruction.vertex) {
            return Err(IllegalRobotRemovalError::from(instruction, "Robot is not at this location".to_owned(), time));
        }
        let current = new_states[robot];
        if current.parcel_id.is_some() {
            return Err(IllegalRobotRemovalError::from(instruction, "Robot carries a parcel".to_owned(), time));
        }
        let ghost before = new_states@;
        new_states.set(robot, RobotState { robot_id: current.robot_id, vertex: None, parcel_id: None });
        assert forall|i: int| 0 <= i < n && !(exists|m: int| 0 <= m < k + 1 && (#[trigger] robot_removals@[m]).robot_id == i)
            implies #[trigger] new_states@[i] == entry[i] by {
            assert(robot_removals@[k as int].robot_id != i);
            assert(new_states@[i] == before[i]);
        }
        assert(robot_removal_legal(prev@, entry, robot_removals@[k as int]));
        k = k + 1;
    }
    Ok(())
}

/// Is placement `k` accepted, with the vertices taken by all the moves of
/// the batch?
pub open spec fn placement_legal_after(
    prev: &State,
    moves: Seq<MoveInstruction>,
    placements: Seq<ParcelInstruction>,
    k: int,
) -> bool {
    let m = placements[k];
    &&& m.robot_id < prev.robot_states@.len()
    &&& prev.robot_states@[m.robot_id as int].vertex == Some(m.vertex)
    &&& !used_by_moves(prev.robot_states@, moves, moves.len() as int, m.vertex)
    &&& !(exists|j: int| 0 <= j < k && (#[trigger] placements[j]).vertex == m.vertex)
    &&& m.parcel < prev.requests@.len()
    &&& prev.requests@[m.parcel as int] is Some
}

/// Does robot `r` hold no parcel once the parcel instructions are applied?
pub open spec fn hands_free(prev: Seq<RobotState>, placements: Seq<ParcelInstruction>, removals: Seq<ParcelInstruction>, r: int) -> bool {
    (exists|m: int| 0 <= m < removals.len() && (#[trigger] removals[m]).robot_id == r) || (!(exists|m: int|
        0 <= m < placements.len() && (#[trigger] placements[m]).robot_id == r) && prev[r].parcel_id is None)
}

/// Every instruction of the batch is accepted in turn.
pub open spec fn batch_legal<P: Plan>(plan: &P, prev: &State, ins: &Instructions) -> bool {
    let rs = prev.robot_states@;
    &&& forall|k: int| 0 <= k < ins.movements@.len() ==> move_legal(rs, ins.movements@, k)
    &&& forall|k: int| 0 <= k < ins.placements@.len() ==> placement_legal_after(prev, ins.movements@, ins.placements@, k)
    &&& forall|k: int| 0 <= k < ins.removals@.len() ==> removal_legal(plan, rs, #[trigger] ins.removals@[k])
    &&& forall|k: int| 0 <= k < ins.robot_removals@.len() ==> {
        let m = #[trigger] ins.robot_removals@[k];
        &&& m.robot_id < rs.len()
        &&& rs[m.robot_id as int].vertex == Some(m.vertex)
        &&& hands_free(rs, ins.placements@, ins.removals@, m.robot_id as int)
    }
}

/// Is robot `r` named by some instruction of the batch?
pub open spec fn named(ins: &Instructions, r: int) -> bool {
    ||| exists|m: int| 0 <= m < ins.movements@.len() && (#[trigger] ins.movements@[m]).robot_id == r
    ||| exists|m: int| 0 <= m < ins.placements@.len() && (#[trigger] ins.placements@[m]).robot_id == r
    ||| exists|m: int| 0 <= m < ins.removals@.len() && (#[trigger] ins.removals@[m]).robot_id == r
    ||| exists|m: int| 0 <= m < ins.robot_removals@.len() && (#[trigger] ins.robot_removals@[m]).robot_id == r
}

/// Checks a batch against `prev` and applies it, in the order moves,
/// placements, parcel removals, robot removals. The first refused
/// instruction refuses the whole batch. An accepted batch is a legal step:
/// no two robots share a vertex or trade places, every robot moves at most
/// one step, and requests only leave the table, each through a removal.
pub fn new_state<P: Plan>(plan: &P, prev: &State, instructions: &Instructions, time: usize) -> (r: Result<State, IllegalInstruction>)
    requires
        plan.wf(),
        prev.wf(),
    ensures
        r matches Ok(next) ==> {
            &&& valid_step(prev, &next)
            &&& next.wf()
            &&& forall|id: int| 0 <= id < prev.requests@.len() && (#[trigger] next.requests@[id]) != prev.requests@[id] ==>
                exists|m: int| 0 <= m < instructions.removals@.len() && (#[trigger] instructions.removals@[m]).parcel == id
            &&& forall|m: int| 0 <= m < instructions.removals@.len() && (#[trigger] instructions.removals@[m]).parcel < prev.requests@.len() ==>
                next.requests@[instructions.removals@[m].parcel as int] is None
            &&& forall|m: int| 0 <= m < instructions.movements@.len() ==>
                (#[trigger] instructions.movements@[m]).robot_id < prev.robot_states@.len() && (next.robot_states@[instructions.movements@[m].robot_id as int].vertex
                    == Some(instructions.movements@[m].vertex) || exists|j: int| 0 <= j < instructions.robot_removals@.len()
                    && (#[trigger] instructions.robot_removals@[j]).robot_id == instructions.movements@[m].robot_id)
            &&& forall|m: int| 0 <= m < instructions.placements@.len() ==>
                (#[trigger] instructions.placements@[m]).robot_id < prev.robot_states@.len()
                && (next.robot_states@[instructions.placements@[m].robot_id as int].parcel_id == Some(instructions.placements@[m].parcel)
                    || exists|j: int| 0 <= j < instructions.removals@.len() && (#[trigger] instructions.removals@[j]).robot_id
                        == instructions.placements@[m].robot_id)
            &&& forall|m: int| 0 <= m < instructions.robot_removals@.len() ==>
                (#[trigger] instructions.robot_removals@[m]).robot_id < prev.robot_states@.len()
                && next.robot_states@[instructions.robot_removals@[m].robot_id as int].vertex is None
            &&& forall|i: int| 0 <= i < prev.robot_states@.len() && !named(instructions, i) ==> #[trigger] next.robot_states@[i]
                == prev.robot_states@[i]
        },
        r is Ok <==> batch_legal(plan, prev, instructions),
        r matches Err(e) ==> e.spec_time() == time,
        r matches Err(IllegalInstruction::Move(e)) ==> exists|k: int|
            first_failure(|j: int| move_legal(prev.robot_states@, instructions.movements@, j), instructions.movements@.len() as int, k)
                && instructions.movements@[k] == e.instruction,
        r matches Err(IllegalInstruction::Placement(e)) ==> exists|k: int|
            first_failure(|j: int| placement_legal_after(prev, instructions.movements@, instructions.placements@, j), instructions.placements@.len() as int, k)
                && instructions.placements@[k] == e.instruction,
        r matches Err(IllegalInstruction::Removal(e)) ==> exists|k: int|
            first_failure(|j: int| removal_legal(plan, prev.robot_states@, instructions.removals@[j]), instructions.removals@.len() as int, k)
                && instructions.removals@[k] == e.instruction,
        r matches Err(IllegalInstruction::RobotRemoval(e)) ==> exists|k: int| 0 <= k < instructions.robot_removals@.len()
            && instructions.robot_removals@[k] == e.instruction,
        instructions.movements@.len() == 0 && instructions.placements@.len() == 0 && instructions.removals@.len() == 0
            && instructions.robot_removals@.len() == 0 ==> (r matches Ok(next) && next.robot_states@ == prev.robot_states@
            && next.requests@ == prev.requests@),
{
    if instructions.movements.len() == 0 && instructions.placements.len() == 0 && instructions.removals.len() == 0
        && instructions.robot_removals.len() == 0 {
        let next = prev.copy();
        assert forall|i: int, j: int|
            0 <= i < next.robot_states@.len() && 0 <= j < next.robot_states@.len() && i != j && (#[trigger] next.robot_states@[i]).vertex is Some
                && prev.robot_states@[j].vertex is Some && next.robot_states@[i].vertex == prev.robot_states@[j].vertex implies
                (#[trigger] next.robot_states@[j]).vertex != prev.robot_states@[i].vertex by {
        }
        return Ok(next);
    }
    let mut new_states = prev.copy().robot_states;
    let mut requests = prev.copy().requests;
    let mut used: Vec<Vertex> = Vec::new();
    match process_move_instructions(&prev.robot_states, &instructions.movements, &mut new_states, &mut used, time) {
        Ok(()) => {},
        Err(e) => {
            return Err(IllegalInstruction::Move(e));
        },
    }
    let ghost after_moves = new_states@;
    proof {
        assert forall|k: int| 0 <= k < instructions.placements@.len() implies
            placement_legal(prev.robot_states@, used@, prev.requests@, instructions.placements@, k)
                == placement_legal_after(prev, instructions.movements@, instructions.placements@, k) by {
            assert(used@.contains(instructions.placements@[k].vertex) == used_by_moves(prev.robot_states@, instructions.movements@, instructions.movements@.len() as int, instructions.placements@[k].vertex));
        }
        assert(requests@ == prev.requests@);
    }
    let ghost used_after_moves = used@;
    match process_placement_instructions(&prev.robot_states, &instructions.placements, &mut new_states, &mut used, &requests, time) {
        Ok(()) => {},
        Err(e) => {
            proof {
                let n = instructions.placements@.len() as int;
                let f = |j: int| placement_legal(prev.robot_states@, used_after_moves, prev.requests@, instructions.placements@, j);
                let k = choose|k: int| first_failure(f, n, k) && instructions.placements@[k] == e.instruction;
                assert(!placement_legal_after(prev, instructions.movements@, instructions.placements@, k));
                assert forall|j: int| 0 <= j < k implies #[trigger] placement_legal_after(prev, instructions.movements@, instructions.placements@, j) by {
                    assert(f(j));
                }
                assert(first_failure(|j: int| placement_legal_after(prev, instructions.movements@, instructions.placements@, j), n, k));
            }
            return Err(IllegalInstruction::Placement(e));
        },
    }
    let ghost after_placements = new_states@;
    match process_removal_instructions(plan, &prev.robot_states, &instructions.removals, &mut new_states, &mut requests, time) {
        Ok(()) => {},
        Err(e) => {
            return Err(IllegalInstruction::Removal(e));
        },
    }
    let ghost after_removals = new_states@;
    match process_robot_removal_instructions(&prev.robot_states, &instructions.robot_removals, &mut new_states, time) {
        Ok(()) => {},
        Err(e) => {
            return Err(IllegalInstruction::RobotRemoval(e));
        },
    }
    let next = State { robot_states: new_states, requests };
    let ghost p = prev.robot_states@;
    let ghost q = next.robot_states@;
    assert forall|i: int| 0 <= i < q.len() implies (#[trigger] q[i]).vertex == after_moves[i].vertex || q[i].vertex is None by {
        assert(after_removals[i].vertex == after_placements[i].vertex);
    }
    assert forall|i: int| 0 <= i < q.len() implies (#[trigger] q[i]).robot_id == i && (q[i].parcel_id is Some ==> q[i].vertex is Some) by {
        assert(p[i].robot_id == i);
        if q[i].parcel_id is Some && q[i].vertex != after_moves[i].vertex {
            assert(false);
        }
        if q[i].parcel_id is Some {
            assert(after_removals[i].parcel_id is Some);
            assert(after_placements[i].parcel_id is Some);
            if after_placements[i].parcel_id == after_moves[i].parcel_id {
                assert(after_moves[i].parcel_id == p[i].parcel_id);
                assert(p[i].vertex is Some);

            }
        }
    }
    assert forall|i: int, j: int|
        0 <= i < q.len() && 0 <= j < q.len() && i != j && (#[trigger] q[i]).vertex is Some implies q[i].vertex != (#[trigger] q[j]).vertex by {
        assert(after_moves[i].vertex == q[i].vertex);
        if q[j].vertex is Some {
            assert(after_moves[j].vertex == q[j].vertex);
        }
    }
    assert forall|i: int| 0 <= i < q.len() && (#[trigger] q[i]).vertex is Some implies p[i].vertex is Some && manhattan(
        p[i].vertex.unwrap(),
        q[i].vertex.unwrap(),
    ) <= 1 by {
        assert(after_moves[i].vertex == q[i].vertex);
    }
    assert forall|i: int, j: int|
        0 <= i < q.len() && 0 <= j < q.len() && i != j && (#[trigger] q[i]).vertex is Some
            && p[j].vertex is Some && q[i].vertex == p[j].vertex implies (#[trigger] q[j]).vertex != p[i].vertex by {
        assert(after_moves[i].vertex == q[i].vertex);
        assert(p[i].vertex is Some);
        if q[j].vertex is Some {
            assert(after_moves[j].vertex == q[j].vertex);
        }
    }
    assert forall|id: int| 0 <= id < next.requests@.len() && (#[trigger] next.requests@[id]) is Some implies next.requests@[id] == prev.requests@[id] by {
    }
    Ok(next)
}

/// Number of vertices of `plan`.
pub open spec fn nr_vertices<P: Plan>(plan: &P) -> nat {
    Set::new(|v: Vertex| plan.spec_contains(v)).len()
}

/// Why a simulation could not be set up.
#[derive(Debug)]
pub enum InitializationError {
    /// More robots than vertices to start on.
    TooManyRobots,
    /// The history already holds an initial state.
    AlreadyInitialized,
    /// Start vertices that are not one distinct plan vertex per robot.
    InvalidStarts,
}

/// Are the entries of `v` pairwise distinct?
fn all_distinct(v: &Vec<Vertex>) -> (r: bool)
    ensures
        r == v@.no_duplicates(),
{
    let mut i: usize = 0;
    while i < v.len()
        invariant
            i <= v@.len(),
            forall|a: int, b: int| 0 <= a < i && 0 <= b < v@.len() && a != b ==> v@[a] != v@[b],
        decreases v@.len() - i,
    {
        let mut j: usize = 0;
        while j < v.len()
            invariant
                i < v@.len(),
                j <= v@.len(),
                forall|a: int, b: int| 0 <= a < i && 0 <= b < v@.len() && a != b ==> v@[a] != v@[b],
                forall|b: int| 0 <= b < j && b != i ==> v@[i as int] != v@[b],
            decreases v@.len() - j,
        {
            if j != i && v[i] == v[j] {
                return false;
            }
            j = j + 1;
        }
        i = i + 1;
    }
    true
}

/// A run that ended on a refused batch.
pub struct RunFailure {
    /// The states recorded before the refused step.
    pub history: History,
    /// Why the batch was refused.
    pub error: IllegalInstruction,
    /// The refused batch.
    pub instructions: Instructions,
}

/// A run: the planner, the floor plan, the demand, the settings and the
/// history of states so far.
pub struct Simulation<P: Plan> {
    algorithm: GreedyShortestPaths,
    plan: P,
    demand: Uniform,
    settings: Settings,
    pub history: History,
}

/// The state at time zero: robot `i` on `starts[i]` with no parcel, and
/// request `i` pending for every generated request.
pub open spec fn initial_state_of(starts: Seq<Vertex>, requests: Seq<Request>, s: &State) -> bool {
    &&& s.robot_states@.len() == starts.len()
    &&& forall|i: int| 0 <= i < starts.len() ==> #[trigger] s.robot_states@[i] == (RobotState { robot_id: i as usize, vertex: Some(starts[i]), parcel_id: None })
    &&& s.requests@.len() == requests.len()
    &&& forall|i: int| 0 <= i < requests.len() ==> #[trigger] s.requests@[i] == Some(requests[i])
}

/// Robots on distinct vertices, none carrying a parcel, and every request
/// pending.
pub fn initial_state(starts: &Vec<Vertex>, requests: &Vec<Request>) -> (r: State)
    requires
        starts@.no_duplicates(),
    ensures
        initial_state_of(starts@, requests@, &r),
        r.wf(),
{
    let mut robot_states: Vec<RobotState> = Vec::new();
    let mut i: usize = 0;
    while i < starts.len()
        invariant
            i <= starts@.len(),
            robot_states@.len() == i,
            forall|k: int| 0 <= k < i ==> #[trigger] robot_states@[k] == (RobotState { robot_id: k as usize, vertex: Some(starts@[k]), parcel_id: None }),
        decreases starts@.len() - i,
    {
        robot_states.push(RobotState { robot_id: i, vertex: Some(starts[i]), parcel_id: None });
        i = i + 1;
    }
    let mut table: Vec<Option<Request>> = Vec::new();
    let mut j: usize = 0;
    while j < requests.len()
        invariant
            j <= requests@.len(),
            table@.len() == j,
            forall|k: int| 0 <= k < j ==> #[trigger] table@[k] == Some(requests@[k]),
        decreases requests@.len() - j,
    {
        table.push(Some(requests[j]));
        j = j + 1;
    }
    let r = State { robot_states, requests: table };
    assert forall|a: int, b: int|
        0 <= a < r.robot_states@.len() && 0 <= b < r.robot_states@.len() && a != b && (#[trigger] r.robot_states@[a]).vertex is Some implies r.robot_states@[a].vertex
            != (#[trigger] r.robot_states@[b]).vertex by {
        assert(starts@[a] != starts@[b]);
    }
    r
}

impl<P: Plan> Simulation<P> {
    pub closed spec fn wf(&self) -> bool {
        &&& self.plan.wf()
        &&& self.algorithm.wf(&self.plan)
        &&& self.algorithm.nr_robots() == self.settings.nr_robots
        &&& self.settings.total_time + 2 < usize::MAX
        &&& self.history.wf()
        &&& self.history.states@.len() == 0 ==> self.algorithm.spec_time() == 1
        &&& self.history.states@.len() > 0 ==> self.algorithm.spec_time() == self.history.states@.len()
            && self.history.states@.last().robot_states@.len() == self.settings.nr_robots
    }

    pub closed spec fn spec_settings(&self) -> &Settings {
        &self.settings
    }

    pub closed spec fn spec_history(&self) -> &History {
        &self.history
    }

    pub closed spec fn spec_plan(&self) -> &P {
        &self.plan
    }

    /// The run's settings.
    pub fn settings(&self) -> (r: &Settings)
        ensures
            r == self.spec_settings(),
    {
        &self.settings
    }

    /// The floor plan.
    pub fn plan(&self) -> (r: &P)
        ensures
            r == self.spec_plan(),
    {
        &self.plan
    }

    /// The states recorded so far.
    pub fn history(&self) -> (r: &History)
        ensures
            r == self.spec_history(),
    {
        &self.history
    }

    pub fn new(algorithm: GreedyShortestPaths, plan: P, demand: Uniform, settings: Settings) -> (r: Simulation<P>)
        requires
            plan.wf(),
            algorithm.wf(&plan),
            algorithm.nr_robots() == settings.nr_robots,
            algorithm.spec_time() == 1,
            settings.total_time + 2 < usize::MAX,
        ensures
            r.wf(),
            r.spec_history().states@.len() == 0,
            *r.spec_settings() == settings,
    {
        Simulation { algorithm, plan, demand, settings, history: History::empty() }
    }

    /// Records the state at time zero: robot `i` on `starts[i]`, and the
    /// given requests pending. Refused when the history already has a state,
    /// or `starts` is not one distinct plan vertex per robot.
    pub fn set_initial_state(&mut self, starts: &Vec<Vertex>, requests: &Vec<Request>) -> (r: Result<(), InitializationError>)
        requires
            old(self).wf(),
        ensures
            final(self).wf(),
            *final(self).spec_settings() == *old(self).spec_settings(),
            r is Ok <==> (old(self).spec_history().states@.len() == 0 && starts@.len() == old(self).spec_settings().nr_robots
                && starts@.no_duplicates() && forall|i: int| 0 <= i < starts@.len() ==> old(self).spec_plan().spec_contains(#[trigger] starts@[i])),
            r is Ok ==> final(self).spec_history().states@.len() == 1 && initial_state_of(starts@, requests@, &final(self).spec_history().states@[0]),
            r is Err ==> final(self).spec_history() == old(self).spec_history(),
    {
        if self.history.states.len() > 0 {
            return Err(InitializationError::AlreadyInitialized);
        }
        if starts.len() != self.settings.nr_robots || !all_distinct(starts) {
            return Err(InitializationError::InvalidStarts);
        }
        let mut i: usize = 0;
        while i < starts.len()
            invariant
                self.wf(),
                *self == *old(self),
                self.history.states@.len() == 0,
                starts@.len() == self.settings.nr_robots,
                starts@.no_duplicates(),
                i <= starts@.len(),
                forall|k: int| 0 <= k < i ==> self.plan.spec_contains(#[trigger] starts@[k]),
            decreases starts@.len() - i,
        {
            if !self.plan.contains(&starts[i]) {
                return Err(InitializationError::InvalidStarts);
            }
            i = i + 1;
        }
        let state = initial_state(starts, requests);
        self.history.push(state);
        Ok(())
    }

    /// The state at time zero that `initialize` records: `nr_robots` robots
    /// with ids in order, on distinct plan vertices, carrying nothing, and
    /// the generated requests pending, each from a source to a terminal.
    pub open spec fn initial_state_ok(&self, s: &State) -> bool {
        &&& s.robot_states@.len() == self.spec_settings().nr_robots
        &&& s.wf()
        &&& forall|i: int| 0 <= i < s.robot_states@.len() ==> {
            &&& (#[trigger] s.robot_states@[i]).parcel_id is None
            &&& s.robot_states@[i].vertex is Some
            &&& self.spec_plan().spec_contains(s.robot_states@[i].vertex.unwrap())
        }
        &&& s.requests@.len() == self.spec_settings().nr_requests || (s.requests@.len() == 0 && !((exists|v: Vertex|
            self.spec_plan().is_source(v)) && (exists|v: Vertex| self.spec_plan().is_terminal(v))))
        &&& forall|id: int| 0 <= id < s.requests@.len() ==> {
            &&& (#[trigger] s.requests@[id]) is Some
            &&& self.spec_plan().is_source(s.requests@[id].unwrap().from)
            &&& self.spec_plan().is_terminal(s.requests@[id].unwrap().to)
        }
    }

    /// Places the robots on distinct vertices drawn by the demand's seeded
    /// generator, generates the requests, and records the state at time
    /// zero. Refused when there are more robots than vertices.
    pub fn initialize(&mut self) -> (r: Result<(), InitializationError>)
        requires
            old(self).wf(),
        ensures
            final(self).wf(),
            *final(self).spec_settings() == *old(self).spec_settings(),
            r is Ok <==> (old(self).spec_history().states@.len() == 0 && old(self).spec_settings().nr_robots <= nr_vertices(
                old(self).spec_plan(),
            )),
            r is Ok ==> final(self).spec_history().states@.len() == 1 && final(self).initial_state_ok(&final(self).spec_history().states@[0]),
            r is Err ==> final(self).spec_history() == old(self).spec_history(),
            old(self).spec_history().states@.len() > 0 <==> r matches Err(InitializationError::AlreadyInitialized),
            !(r matches Err(InitializationError::InvalidStarts)),
    {
        if self.history.states.len() > 0 {
            return Err(InitializationError::AlreadyInitialized);
        }
        let vertices = self.plan.vertices();
        proof {
            assert(vertices@.to_set() =~= Set::new(|v: Vertex| self.plan.spec_contains(v)));
            vertices@.unique_seq_to_set();
        }
        if self.settings.nr_robots > vertices.len() {
            return Err(InitializationError::TooManyRobots);
        }
        let picks = sample_indices(self.demand.rng(), vertices.len(), self.settings.nr_robots);
        let mut starts: Vec<Vertex> = Vec::new();
        let mut i: usize = 0;
        while i < picks.len()
            invariant
                i <= picks@.len(),
                picks@.no_duplicates(),
                vertices@.no_duplicates(),
                forall|k: int| 0 <= k < picks@.len() ==> picks@[k] < vertices@.len(),
                starts@.len() == i,
                forall|k: int| 0 <= k < i ==> #[trigger] starts@[k] == vertices@[picks@[k] as int],
            decreases picks@.len() - i,
        {
            starts.push(vertices[picks[i]]);
            i = i + 1;
        }
        assert forall|a: int, b: int| 0 <= a < starts@.len() && 0 <= b < starts@.len() && a != b implies starts@[a] != starts@[b] by {
            assert(picks@[a] != picks@[b]);
        }
        let requests = self.demand.generate(&self.plan, self.settings.nr_requests);
        let state = initial_state(&starts, &requests);
        proof {
            assert forall|k: int| 0 <= k < starts@.len() implies self.plan.spec_contains(#[trigger] starts@[k]) by {
                assert(vertices@.contains(vertices@[picks@[k] as int]));
            }
        }
        self.history.push(state);
        Ok(())
    }

    /// Runs steps until every request is delivered or `total_time` states
    /// are recorded. Each step asks the planner for instructions and applies
    /// them. A refused batch ends the run: the failure holds the states so
    /// far, the refusal and the refused batch.
    pub fn run(self) -> (r: Result<History, RunFailure>)
        requires
            self.wf(),
            self.spec_history().states@.len() == 1,
        ensures
            r matches Ok(h) ==> {
                &&& h.wf()
                &&& 1 <= h.states@.len() <= if self.spec_settings().total_time > 1 { self.spec_settings().total_time as int } else { 1 }
                &&& h.states@[0] == self.spec_history().states@[0]
                &&& forall|t: int| 0 <= t < h.states@.len() - 1 ==> !all_done(#[trigger] &h.states@[t])
                &&& h.states@.len() >= self.spec_settings().total_time || all_done(&h.states@.last())
            },
            r matches Err(f) ==> {
                &&& f.history.wf()
                &&& 1 <= f.history.states@.len() < self.spec_settings().total_time
                &&& f.history.states@[0] == self.spec_history().states@[0]
                &&& forall|t: int| 0 <= t < f.history.states@.len() ==> !all_done(#[trigger] &f.history.states@[t])
                &&& !batch_legal(self.spec_plan(), &f.history.states@.last(), &f.instructions)
                &&& f.error.spec_time() == f.history.states@.len()
            },
    {
        let ghost total = self.settings.total_time;
        let ghost plan0 = self.plan;
        let mut sim = self;
        let ghost first = sim.history.states@[0];
        while !sim.history.last_state().is_done() && sim.history.time() < sim.settings.total_time
            invariant
                sim.wf(),
                sim.settings.total_time == total,
                total == self.spec_settings().total_time,
                plan0 == *self.spec_plan(),
                first == self.spec_history().states@[0],
                sim.plan == plan0,
                sim.history.states@.len() >= 1,
                sim.history.states@.len() <= if total > 1 { total as int } else { 1 },
                sim.history.states@[0] == first,
                forall|t: int| 0 <= t < sim.history.states@.len() - 1 ==> !all_done(#[trigger] &sim.history.states@[t]),
            decreases sim.settings.total_time - sim.history.states@.len(),
        {
            let instructions = sim.algorithm.next_step(&sim.plan, &sim.history);
            let time = sim.history.time();
            let next = match new_state(&sim.plan, sim.history.last_state(), &instructions, time) {
                Ok(state) => state,
                Err(e) => {
                    assert(!all_done(&sim.history.states@.last()));
                    assert forall|t: int| 0 <= t < sim.history.states@.len() implies !all_done(#[trigger] &sim.history.states@[t]) by {
                        if t == sim.history.states@.len() - 1 {
                            assert(sim.history.states@[t] == sim.history.states@.last());
                        }
                    }
                    return Err(RunFailure { history: sim.history, error: e, instructions });
                },
            };
            let ghost before = sim.history.states@;
            sim.history.push(next);
            assert(sim.history.states@[0] == before[0]);
            assert forall|t: int| 0 <= t < sim.history.states@.len() - 1 implies !all_done(#[trigger] &sim.history.states@[t]) by {
                assert(sim.history.states@[t] == before[t]);
            }
        }
        Ok(sim.history)
    }
}

/// One accepted move keeps the loop's facts.
proof fn lemma_move_step(
    prev: Seq<RobotState>,
    new0: Seq<RobotState>,
    new1: Seq<RobotState>,
    moved0: Seq<bool>,
    moved1: Seq<bool>,
    used0: Seq<Vertex>,
    used1: Seq<Vertex>,
    moves: Seq<MoveInstruction>,
    k: int,
    robot: int,
    origin: Vertex,
    target: Vertex,
)
    requires
        robots_wf(prev),
        no_collisions(prev),
        0 <= k < moves.len(),
        moves[k].robot_id == robot,
        moves[k].vertex == target,
        0 <= robot < prev.len(),
        prev[robot].vertex == Some(origin),
        !moved0[robot],
        manhattan(origin, target) <= 1,
        !used0.contains(target),
        !held_by_other(prev, moves, k, robot, target),
        new0.len() == prev.len(),
        moved0.len() == prev.len(),
        new1 == new0.update(robot, (RobotState { robot_id: robot as usize, vertex: Some(target), parcel_id: prev[robot].parcel_id })),
        moved1 == moved0.update(robot, true),
        used1 == used0.push(origin).push(target),
        forall|i: int| 0 <= i < prev.len() ==> (#[trigger] new0[i]).robot_id == prev[i].robot_id
            && new0[i].parcel_id == prev[i].parcel_id,
        forall|i: int| 0 <= i < prev.len() && !(#[trigger] moved0[i]) ==> new0[i] == prev[i],
        forall|i: int| 0 <= i < prev.len() && #[trigger] moved0[i] ==> {
            &&& prev[i].vertex is Some
            &&& new0[i].vertex is Some
            &&& manhattan(prev[i].vertex.unwrap(), new0[i].vertex.unwrap()) <= 1
            &&& used0.contains(prev[i].vertex.unwrap())
            &&& used0.contains(new0[i].vertex.unwrap())
        },
        forall|m: int| 0 <= m < k ==> (#[trigger] moves[m]).robot_id < prev.len() && moved0[moves[m].robot_id as int]
            && new0[moves[m].robot_id as int].vertex == Some(moves[m].vertex),
        conflicts_pending(prev, new0, moved0, moves, k - 1),
        no_swaps(prev, new0),
    ensures
        forall|i: int| 0 <= i < prev.len() ==> (#[trigger] new1[i]).robot_id == prev[i].robot_id
            && new1[i].parcel_id == prev[i].parcel_id,
        forall|i: int| 0 <= i < prev.len() && !(#[trigger] moved1[i]) ==> new1[i] == prev[i],
        forall|i: int| 0 <= i < prev.len() && #[trigger] moved1[i] ==> {
            &&& prev[i].vertex is Some
            &&& new1[i].vertex is Some
            &&& manhattan(prev[i].vertex.unwrap(), new1[i].vertex.unwrap()) <= 1
            &&& used1.contains(prev[i].vertex.unwrap())
            &&& used1.contains(new1[i].vertex.unwrap())
        },
        forall|m: int| 0 <= m < k + 1 ==> (#[trigger] moves[m]).robot_id < prev.len() && moved1[moves[m].robot_id as int]
            && new1[moves[m].robot_id as int].vertex == Some(moves[m].vertex),
        conflicts_pending(prev, new1, moved1, moves, k),
        no_swaps(prev, new1),
{
    let n = prev.len();
    assert forall|i: int| 0 <= i < n && #[trigger] moved1[i] implies {
        &&& prev[i].vertex is Some
        &&& new1[i].vertex is Some
        &&& manhattan(prev[i].vertex.unwrap(), new1[i].vertex.unwrap()) <= 1
        &&& used1.contains(prev[i].vertex.unwrap())
        &&& used1.contains(new1[i].vertex.unwrap())
    } by {
        if i != robot {
            assert(moved0[i]);
            assert(used0.push(origin).contains(prev[i].vertex.unwrap()));
            assert(used0.push(origin).contains(new0[i].vertex.unwrap()));
        } else {
            assert(used0.push(origin).contains(origin));
        }
    }
    assert forall|m: int| 0 <= m < k + 1 implies (#[trigger] moves[m]).robot_id < prev.len() && moved1[moves[m].robot_id as int]
        && new1[moves[m].robot_id as int].vertex == Some(moves[m].vertex) by {
        if m < k {
            let o = moves[m].robot_id as int;
            if o == robot {
                assert(moved0[o]);
            }
        }
    }
    assert forall|i: int, j: int|
        0 <= i < n && 0 <= j < n && i != j && (#[trigger] new1[i]).vertex is Some && new1[i].vertex
            == (#[trigger] new1[j]).vertex implies (!moved1[j] && vacates_after(moves, k, j, prev[j].vertex.unwrap()))
            || (!moved1[i] && vacates_after(moves, k, i, prev[i].vertex.unwrap())) by {
        if i == robot || j == robot {
            let o = if i == robot { j } else { i };
            assert(new1[o].vertex == Some(target));
            if moved0[o] {
                assert(used0.contains(new0[o].vertex.unwrap()));
            } else {
                assert(new0[o] == prev[o]);
                assert(prev[o].vertex == Some(target));
                assert(vacates_after(moves, k, o, target));
            }
        } else {
            assert(new1[i] == new0[i]);
            assert(new1[j] == new0[j]);
            if !moved0[j] && vacates_after(moves, k - 1, j, prev[j].vertex.unwrap()) {
                let m = choose|m: int| k - 1 < m < moves.len() && (#[trigger] moves[m]).robot_id == j && moves[m].vertex != prev[j].vertex.unwrap();
                assert(m != k);
                assert(vacates_after(moves, k, j, prev[j].vertex.unwrap()));
            } else {
                let m = choose|m: int| k - 1 < m < moves.len() && (#[trigger] moves[m]).robot_id == i && moves[m].vertex != prev[i].vertex.unwrap();
                assert(m != k);
                assert(vacates_after(moves, k, i, prev[i].vertex.unwrap()));
            }
        }
    }
    assert forall|i: int, j: int|
        0 <= i < n && 0 <= j < n && i != j && (#[trigger] new1[i]).vertex is Some
            && prev[j].vertex is Some && new1[i].vertex == prev[j].vertex implies (#[trigger] new1[j]).vertex
            != prev[i].vertex by {
        if i == robot || j == robot {
            let o = if i == robot { j } else { i };
            if moved0[o] {
                assert(used0.contains(prev[o].vertex.unwrap()));
                assert(new1[o] == new0[o]);
            } else {
                assert(new0[o] == prev[o]);
            }
        } else {
            assert(new1[i] == new0[i]);
            assert(new1[j] == new0[j]);
        }
    }
}

} // verus!
