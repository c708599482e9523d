//! Joint assignment and ordering of requests over all robots by an integer
//! program: the cost tables handed to the solver, and the robots' queues
//! read back from its answer.
use crate::assignment::saturating_distance;
use crate::demand::Request;
use crate::plan::Vertex;
use crate::single_vehicle_ilp::capped_distance;
use vstd::prelude::*;

verus! {

broadcast use crate::seq_facts::lemma_push_contains;

/// Assigns and orders all requests at once.
pub struct MultiVehicleIlpFormulation {}

/// `a + b`, capped at the largest `u64`.
pub open spec fn capped_sum(a: u64, b: u64) -> u64 {
    if a + b > u64::MAX {
        u64::MAX
    } else {
        (a + b) as u64
    }
}

/// Cost of serving request `r` right after being at `at`: reaching its
/// source, then carrying it to its terminal.
pub open spec fn serve_cost(at: Vertex, r: Request) -> u64 {
    capped_sum(capped_distance(at, r.from), capped_distance(r.from, r.to))
}

/// The request that robot `robot` serves after `i`: the target of the first
/// transition of that robot out of `i`.
pub open spec fn robot_successor(transitions: Seq<(usize, usize, usize)>, robot: usize, i: usize) -> Option<usize>
    decreases transitions.len(),
{
    if transitions.len() == 0 {
        None
    } else if transitions[0].0 == robot && transitions[0].1 == i {
        Some(transitions[0].2)
    } else {
        robot_successor(transitions.drop_first(), robot, i)
    }
}

/// Robot `robot`'s requests from `current` on, at most `fuel` more steps.
pub open spec fn robot_chain(transitions: Seq<(usize, usize, usize)>, robot: usize, current: usize, fuel: nat) -> Seq<usize>
    decreases fuel,
{
    if fuel == 0 {
        seq![current]
    } else {
        match robot_successor(transitions, robot, current) {
            None => seq![current],
            Some(next) => seq![current] + robot_chain(transitions, robot, next, (fuel - 1) as nat),
        }
    }
}

/// The first request of robot `robot`, by the first entry that names it.
pub open spec fn first_of(firsts: Seq<(usize, usize)>, robot: usize) -> Option<usize>
    decreases firsts.len(),
{
    if firsts.len() == 0 {
        None
    } else if firsts[0].0 == robot {
        Some(firsts[0].1)
    } else {
        first_of(firsts.drop_first(), robot)
    }
}

fn find_first(firsts: &Vec<(usize, usize)>, robot: usize) -> (r: Option<usize>)
    ensures
        r == first_of(firsts@, robot),
{
    let mut k: usize = 0;
    assert(firsts@.skip(0) =~= firsts@);
    while k < firsts.len()
        invariant
            k <= firsts@.len(),
            first_of(firsts@, robot) == first_of(firsts@.skip(k as int), robot),
        decreases firsts@.len() - k,
    {
        assert(firsts@.skip(k as int).drop_first() == firsts@.skip(k + 1));
        if firsts[k].0 == robot {
            return Some(firsts[k].1);
        }
        k = k + 1;
    }
    assert(firsts@.skip(k as int).len() == 0);
    None
}

fn find_robot_successor(transitions: &Vec<(usize, usize, usize)>, robot: usize, i: usize) -> (r: Option<usize>)
    ensures
        r == robot_successor(transitions@, robot, i),
{
    let mut k: usize = 0;
    assert(transitions@.skip(0) =~= transitions@);
    while k < transitions.len()
        invariant
            k <= transitions@.len(),
            robot_successor(transitions@, robot, i) == robot_successor(transitions@.skip(k as int), robot, i),
        decreases transitions@.len() - k,
    {
        assert(transitions@.skip(k as int).drop_first() == transitions@.skip(k + 1));
        if transitions[k].0 == robot && transitions[k].1 == i {
            return Some(transitions[k].2);
        }
        k = k + 1;
    }
    assert(transitions@.skip(k as int).len() == 0);
    None
}

impl MultiVehicleIlpFormulation {
    pub fn new() -> (r: MultiVehicleIlpFormulation) {
        MultiVehicleIlpFormulation {}
    }

    /// For each robot and pending request: the cost of serving it first,
    /// from where the robot is next free.
    pub fn calculate_start_costs(availability: &Vec<(usize, Vertex)>, requests: &Vec<Option<Request>>) -> (r: Vec<(usize, usize, u64)>)
        ensures
            r@.no_duplicates(),
            forall|e: (usize, usize, u64)| #[trigger] r@.contains(e) <==> (e.0 < availability@.len() && e.1 < requests@.len()
                && requests@[e.1 as int] is Some && e.2 == serve_cost(availability@[e.0 as int].1, requests@[e.1 as int].unwrap())),
    {
        let mut costs: Vec<(usize, usize, u64)> = Vec::new();
        let mut robot: usize = 0;
        while robot < availability.len()
            invariant
                robot <= availability@.len(),
                costs@.no_duplicates(),
                forall|e: (usize, usize, u64)| #[trigger] costs@.contains(e) <==> (e.0 < robot && e.1 < requests@.len()
                    && requests@[e.1 as int] is Some && e.2 == serve_cost(availability@[e.0 as int].1, requests@[e.1 as int].unwrap())),
            decreases availability@.len() - robot,
        {
            let at = availability[robot].1;
            let mut id: usize = 0;
            while id < requests.len()
                invariant
                    robot < availability@.len(),
                    at == availability@[robot as int].1,
                    id <= requests@.len(),
                    costs@.no_duplicates(),
                    forall|e: (usize, usize, u64)| #[trigger] costs@.contains(e) <==> ((e.0 < robot || (e.0 == robot && e.1 < id))
                        && e.1 < requests@.len() && requests@[e.1 as int] is Some && e.2 == serve_cost(availability@[e.0 as int].1, requests@[e.1 as int].unwrap())),
                decreases requests@.len() - id,
            {
                match requests[id] {
                    Some(request) => {
                        let cost = saturating_distance(at, request.from).saturating_add(saturating_distance(request.from, request.to));
                        let e = (robot, id, cost);
                        assert(!costs@.contains(e));
                        costs.push(e);
                    },
                    None => {},
                }
                id = id + 1;
            }
            robot = robot + 1;
        }
        costs
    }

    /// For each ordered pair of pending requests: the cost of serving the
    /// second right after delivering the first.
    pub fn calculate_transition_costs(requests: &Vec<Option<Request>>) -> (r: Vec<(usize, usize, u64)>)
        ensures
            r@.no_duplicates(),
            forall|e: (usize, usize, u64)| #[trigger] r@.contains(e) <==> (e.0 < requests@.len() && e.1 < requests@.len()
                && requests@[e.0 as int] is Some && requests@[e.1 as int] is Some && e.2 == serve_cost(
                requests@[e.0 as int].unwrap().to,
                requests@[e.1 as int].unwrap(),
            )),
    {
        let mut costs: Vec<(usize, usize, u64)> = Vec::new();
        let mut i: usize = 0;
        while i < requests.len()
            invariant
                i <= requests@.len(),
                costs@.no_duplicates(),
                forall|e: (usize, usize, u64)| #[trigger] costs@.contains(e) <==> (e.0 < i && e.1 < requests@.len()
                    && requests@[e.0 as int] is Some && requests@[e.1 as int] is Some && e.2 == serve_cost(
                    requests@[e.0 as int].unwrap().to,
                    requests@[e.1 as int].unwrap(),
                )),
            decreases requests@.len() - i,
        {
            match requests[i] {
                Some(first) => {
                    let mut j: usize = 0;
                    while j < requests.len()
                        invariant
                            i < requests@.len(),
                            requests@[i as int] == Some(first),
                            j <= requests@.len(),
                            costs@.no_duplicates(),
                            forall|e: (usize, usize, u64)| #[trigger] costs@.contains(e) <==> ((e.0 < i || (e.0 == i && e.1 < j))
                                && e.1 < requests@.len() && requests@[e.0 as int] is Some && requests@[e.1 as int] is Some && e.2
                                == serve_cost(requests@[e.0 as int].unwrap().to, requests@[e.1 as int].unwrap())),
                        decreases requests@.len() - j,
                    {
                        match requests[j] {
                            Some(second) => {
                                let cost = saturating_distance(first.to, second.from).saturating_add(
                                    saturating_distance(second.from, second.to),
                                );
                                let e = (i, j, cost);
                                assert(!costs@.contains(e));
                                costs.push(e);
                            },
                            None => {},
                        }
                        j = j + 1;
                    }
                },
                None => {},
            }
            i = i + 1;
        }
        costs
    }

    /// For each robot and pending request: the cost of ending with it, which
    /// is zero.
    pub fn calculate_end_costs(availability: &Vec<(usize, Vertex)>, requests: &Vec<Option<Request>>) -> (r: Vec<(usize, usize, u64)>)
        ensures
            r@.no_duplicates(),
            forall|e: (usize, usize, u64)| #[trigger] r@.contains(e) <==> (e.0 < availability@.len() && e.1 < requests@.len()
                && requests@[e.1 as int] is Some && e.2 == 0),
    {
        let mut costs: Vec<(usize, usize, u64)> = Vec::new();
        let mut robot: usize = 0;
        while robot < availability.len()
            invariant
                robot <= availability@.len(),
                costs@.no_duplicates(),
                forall|e: (usize, usize, u64)| #[trigger] costs@.contains(e) <==> (e.0 < robot && e.1 < requests@.len()
                    && requests@[e.1 as int] is Some && e.2 == 0),
            decreases availability@.len() - robot,
        {
            let mut id: usize = 0;
            while id < requests.len()
                invariant
                    robot < availability@.len(),
                    id <= requests@.len(),
                    costs@.no_duplicates(),
                    forall|e: (usize, usize, u64)| #[trigger] costs@.contains(e) <==> ((e.0 < robot || (e.0 == robot && e.1 < id))
                        && e.1 < requests@.len() && requests@[e.1 as int] is Some && e.2 == 0),
                decreases requests@.len() - id,
            {
                if requests[id].is_some() {
                    let e = (robot, id, 0u64);
                    assert(!costs@.contains(e));
                    costs.push(e);
                }
                id = id + 1;
            }
            robot = robot + 1;
        }
        costs
    }

    /// Each robot's queue: its first request, then each successor the
    /// solver chose for that robot, at most one step per transition; empty
    /// for a robot with no first request.
    pub fn reconstruct_assignment(nr_robots: usize, firsts: &Vec<(usize, usize)>, transitions: &Vec<(usize, usize, usize)>) -> (r: Vec<Vec<usize>>)
        ensures
            r@.len() == nr_robots,
            forall|k: int| 0 <= k < nr_robots ==> (#[trigger] r@[k])@ == match first_of(firsts@, k as usize) {
                None => Seq::<usize>::empty(),
                Some(f) => robot_chain(transitions@, k as usize, f, transitions@.len()),
            },
    {
        let mut queues: Vec<Vec<usize>> = Vec::new();
        let mut robot: usize = 0;
        while robot < nr_robots
            invariant
                robot <= nr_robots,
                queues@.len() == robot,
                forall|k: int| 0 <= k < robot ==> (#[trigger] queues@[k])@ == match first_of(firsts@, k as usize) {
                    None => Seq::<usize>::empty(),
                    Some(f) => robot_chain(transitions@, k as usize, f, transitions@.len()),
                },
            decreases nr_robots - robot,
        {
            let queue = match find_first(firsts, robot) {
                None => Vec::new(),
                Some(first) => Self::reconstruct_transitions(robot, first, transitions),
            };
            queues.push(queue);
            robot = robot + 1;
        }
        queues
    }

    /// Robot `robot`'s requests from `first` on.
    pub fn reconstruct_transitions(robot: usize, first: usize, transitions: &Vec<(usize, usize, usize)>) -> (r: Vec<usize>)
        ensures
            r@ == robot_chain(transitions@, robot, first, transitions@.len()),
    {
        let mut assigned: Vec<usize> = vec![first];
        let mut current = first;
        let mut fuel = transitions.len();
        while fuel > 0
            invariant
                assigned@.len() >= 1,
                assigned@.last() == current,
                assigned@.drop_last() + robot_chain(transitions@, robot, current, fuel as nat) == robot_chain(transitions@, robot, first, transitions@.len()),
            ensures
                assigned@.len() >= 1,
                assigned@.last() == current,
                assigned@.drop_last() + robot_chain(transitions@, robot, current, fuel as nat) == robot_chain(transitions@, robot, first, transitions@.len()),
                robot_chain(transitions@, robot, current, fuel as nat) == seq![current],
            decreases fuel,
        {
            match find_robot_successor(transitions, robot, current) {
                None => {
                    break;
                },
                Some(next) => {
                    let ghost before = assigned@;
                    assigned.push(next);
                    assert(assigned@.drop_last() == before);
                    assert(before.drop_last() + seq![current] == before);
                    assert(robot_chain(transitions@, robot, current, fuel as nat) == seq![current] + robot_chain(transitions@, robot, next, (fuel - 1) as nat));
                    assert(before.drop_last() + (seq![current] + robot_chain(transitions@, robot, next, (fuel - 1) as nat))
                        == before + robot_chain(transitions@, robot, next, (fuel - 1) as nat));
                    current = next;
                    fuel = fuel - 1;
                },
            }
        }
        assert(assigned@.drop_last() + seq![current] == assigned@);
        assigned
    }
}

} // verus!
