//! Single-vehicle ordering of a robot's requests by an integer program: the
//! data handed to the solver, and the order read back from its answer.
use crate::assignment::{capped, saturating_distance};
use crate::demand::Request;
use crate::plan::{manhattan, Vertex};
use vstd::arithmetic::div_mod::lemma_fundamental_div_mod_converse;
use vstd::prelude::*;

verus! {

/// Orders each robot's assigned requests to minimise its travel from its
/// anchor through pickups and deliveries.
pub struct MakespanSingleVehicleILP {}

/// The request that follows `i` in the solver's transitions: the target of
/// the first transition out of `i`.
pub open spec fn successor(transitions: Seq<(usize, usize)>, i: usize) -> Option<usize>
    decreases transitions.len(),
{
    if transitions.len() == 0 {
        None
    } else if transitions[0].0 == i {
        Some(transitions[0].1)
    } else {
        successor(transitions.drop_first(), i)
    }
}

/// The chain of requests from `current`, following successors, up to `last`
/// and at most `fuel` steps.
pub open spec fn chain(transitions: Seq<(usize, usize)>, current: usize, last: usize, fuel: nat) -> Seq<usize>
    decreases fuel,
{
    if current == last || fuel == 0 {
        seq![current]
    } else {
        match successor(transitions, current) {
            None => seq![current],
            Some(next) => seq![current] + chain(transitions, next, last, (fuel - 1) as nat),
        }
    }
}

/// Distance between two vertices, capped at the largest `u64`.
pub open spec fn capped_distance(a: Vertex, b: Vertex) -> u64 {
    capped(manhattan(a, b) as int) as u64
}

fn find_successor(transitions: &Vec<(usize, usize)>, i: usize) -> (r: Option<usize>)
    ensures
        r == successor(transitions@, i),
{
    let mut k: usize = 0;
    assert(transitions@.skip(0) =~= transitions@);
    while k < transitions.len()
        invariant
            k <= transitions@.len(),
            successor(transitions@, i) == successor(transitions@.skip(k as int), i),
        decreases transitions@.len() - k,
    {
        assert(transitions@.skip(k as int).drop_first() == transitions@.skip(k + 1));
        if transitions[k].0 == i {
            return Some(transitions[k].1);
        }
        k = k + 1;
    }
    assert(transitions@.skip(k as int).len() == 0);
    None
}

proof fn lemma_flat_index(i: int, j: int, m: int)
    requires
        0 <= i,
        0 <= j < m,
    ensures
        (i * m + j) / m == i,
        (i * m + j) % m == j,
{
    lemma_fundamental_div_mod_converse(i * m + j, m, i, j);
}

/// Distance travelled carrying the requests of `queue`: the sum of their
/// source-to-terminal distances, each capped, the sum capped too.
pub open spec fn queue_distance(queue: Seq<usize>, requests: Seq<Option<Request>>) -> int
    decreases queue.len(),
{
    if queue.len() == 0 {
        0
    } else {
        let id = queue.last();
        let d: int = if id < requests.len() && requests[id as int] is Some {
            capped_distance(requests[id as int].unwrap().from, requests[id as int].unwrap().to) as int
        } else {
            0
        };
        capped(queue_distance(queue.drop_last(), requests) + d)
    }
}

/// The makespan estimate of an assignment: over robots, the largest sum of
/// the solver's objective for the robot's order and its carrying distance.
pub open spec fn quality_upto(objectives: Seq<u64>, assignment: Seq<Seq<usize>>, requests: Seq<Option<Request>>, n: int) -> int
    decreases n,
{
    if n <= 0 {
        0
    } else {
        let rest = quality_upto(objectives, assignment, requests, n - 1);
        let here = capped(objectives[n - 1] + queue_distance(assignment[n - 1], requests));
        if here > rest {
            here
        } else {
            rest
        }
    }
}

fn carrying_distance(queue: &Vec<usize>, requests: &Vec<Option<Request>>) -> (r: u64)
    ensures
        r == queue_distance(queue@, requests@),
{
    let mut total: u64 = 0;
    let mut i: usize = 0;
    while i < queue.len()
        invariant
            i <= queue@.len(),
            total == queue_distance(queue@.take(i as int), requests@),
        decreases queue@.len() - i,
    {
        assert(queue@.take(i + 1).drop_last() == queue@.take(i as int));
        let id = queue[i];
        let d: u64 = if id < requests.len() {
            match requests[id] {
                Some(q) => saturating_distance(q.from, q.to),
                None => 0,
            }
        } else {
            0
        };
        total = total.saturating_add(d);
        i = i + 1;
    }
    assert(queue@.take(i as int) == queue@);
    total
}

impl MakespanSingleVehicleILP {
    pub fn new() -> (r: MakespanSingleVehicleILP) {
        MakespanSingleVehicleILP {}
    }

    /// How good an assignment is, given the objective the solver reached for
    /// each robot's order: the largest, over robots, of that objective plus
    /// the robot's carrying distance.
    pub fn assignment_quality(objectives: &Vec<u64>, assignment: &Vec<Vec<usize>>, requests: &Vec<Option<Request>>) -> (r: u64)
        requires
            objectives@.len() == assignment@.len(),
        ensures
            r == quality_upto(objectives@, assignment@.map_values(|q: Vec<usize>| q@), requests@, assignment@.len() as int),
    {
        let ghost qs = assignment@.map_values(|q: Vec<usize>| q@);
        let mut best: u64 = 0;
        let mut k: usize = 0;
        while k < assignment.len()
            invariant
                objectives@.len() == assignment@.len(),
                qs == assignment@.map_values(|q: Vec<usize>| q@),
                k <= assignment@.len(),
                best == quality_upto(objectives@, qs, requests@, k as int),
            decreases assignment@.len() - k,
        {
            let here = objectives[k].saturating_add(carrying_distance(&assignment[k], requests));
            assert(qs[k as int] == assignment@[k as int]@);
            if here > best {
                best = here;
            }
            k = k + 1;
        }
        best
    }

    /// The order of requests that the solver's answer describes: `first`,
    /// then each successor in turn, until `last` or until no successor is
    /// known; at most one step per transition.
    pub fn reconstruct_request_order(first: usize, transitions: &Vec<(usize, usize)>, last: usize) -> (r: Vec<usize>)
        ensures
            r@ == chain(transitions@, first, last, transitions@.len()),
    {
        let mut order: Vec<usize> = vec![first];
        let mut current = first;
        let mut fuel = transitions.len();
        while current != last && fuel > 0
            invariant
                order@.len() >= 1,
                order@.last() == current,
                order@.drop_last() + chain(transitions@, current, last, fuel as nat) == chain(transitions@, first, last, transitions@.len()),
            ensures
                order@.len() >= 1,
                order@.last() == current,
                order@.drop_last() + chain(transitions@, current, last, fuel as nat) == chain(transitions@, first, last, transitions@.len()),
                chain(transitions@, current, last, fuel as nat) == seq![current],
            decreases fuel,
        {
            match find_successor(transitions, current) {
                None => {
                    assert(chain(transitions@, current, last, fuel as nat) == seq![current]);
                    break;
                },
                Some(next) => {
                    let ghost before = order@;
                    order.push(next);
                    assert(order@.drop_last() == before);
                    assert(before.drop_last() + seq![current] == before);
                    assert(chain(transitions@, current, last, fuel as nat) == seq![current] + chain(transitions@, next, last, (fuel - 1) as nat));
                    assert(before.drop_last() + (seq![current] + chain(transitions@, next, last, (fuel - 1) as nat))
                        == before + chain(transitions@, next, last, (fuel - 1) as nat));
                    current = next;
                    fuel = fuel - 1;
                },
            }
        }
        assert(order@.drop_last() + seq![current] == order@);
        order
    }

    /// The solver's data for a robot at `start_vertex` with requests
    /// `assigned`: the distance from the start to each pickup, from each
    /// drop-off to each pickup (row by row), and the cost of ending after
    /// each request, which is zero.
    pub fn calculate_distances(start_vertex: Vertex, assigned: &Vec<usize>, requests: &Vec<Option<Request>>) -> (r: (
        Vec<(usize, u64)>,
        Vec<(usize, usize, u64)>,
        Vec<(usize, u64)>,
    ))
        requires
            forall|k: int| 0 <= k < assigned@.len() ==> (#[trigger] assigned@[k]) < requests@.len() && requests@[assigned@[k] as int] is Some,
            assigned@.len() * assigned@.len() <= usize::MAX,
        ensures
            r.0@.len() == assigned@.len(),
            forall|k: int| 0 <= k < assigned@.len() ==> #[trigger] r.0@[k] == (assigned@[k], capped_distance(start_vertex, requests@[assigned@[k] as int].unwrap().from)),
            r.1@.len() == assigned@.len() * assigned@.len(),
            forall|i: int, j: int| 0 <= i < assigned@.len() && 0 <= j < assigned@.len() ==> #[trigger] r.1@[i * assigned@.len() + j] == (
                assigned@[i],
                assigned@[j],
                capped_distance(requests@[assigned@[i] as int].unwrap().to, requests@[assigned@[j] as int].unwrap().from),
            ),
            r.2@.len() == assigned@.len(),
            forall|k: int| 0 <= k < assigned@.len() ==> #[trigger] r.2@[k] == (assigned@[k], 0u64),
    {
        let m = assigned.len();
        let mut first: Vec<(usize, u64)> = Vec::new();
        let mut last: Vec<(usize, u64)> = Vec::new();
        let mut k: usize = 0;
        while k < m
            invariant
                m == assigned@.len(),
                forall|q: int| 0 <= q < m ==> (#[trigger] assigned@[q]) < requests@.len() && requests@[assigned@[q] as int] is Some,
                k <= m,
                first@.len() == k,
                last@.len() == k,
                forall|q: int| 0 <= q < k ==> #[trigger] first@[q] == (assigned@[q], capped_distance(start_vertex, requests@[assigned@[q] as int].unwrap().from)),
                forall|q: int| 0 <= q < k ==> #[trigger] last@[q] == (assigned@[q], 0u64),
            decreases m - k,
        {
            let id = assigned[k];
            let request = requests[id].unwrap();
            first.push((id, saturating_distance(start_vertex, request.from)));
            last.push((id, 0));
            k = k + 1;
        }
        let mut transitions: Vec<(usize, usize, u64)> = Vec::new();
        let mut i: usize = 0;
        while i < m
            invariant
                m == assigned@.len(),
                m * m <= usize::MAX,
                forall|q: int| 0 <= q < m ==> (#[trigger] assigned@[q]) < requests@.len() && requests@[assigned@[q] as int] is Some,
                i <= m,
                transitions@.len() == i * m,
                forall|t: int| 0 <= t < transitions@.len() ==> #[trigger] transitions@[t] == (
                    assigned@[t / m as int],
                    assigned@[t % m as int],
                    capped_distance(requests@[assigned@[t / m as int] as int].unwrap().to, requests@[assigned@[t % m as int] as int].unwrap().from),
                ),
            decreases m - i,
        {
            let from_id = assigned[i];
            let from_request = requests[from_id].unwrap();
            let mut j: usize = 0;
            while j < m
                invariant
                    m == assigned@.len(),
                    m * m <= usize::MAX,
                    forall|q: int| 0 <= q < m ==> (#[trigger] assigned@[q]) < requests@.len() && requests@[assigned@[q] as int] is Some,
                    i < m,
                    j <= m,
                    from_id == assigned@[i as int],
                    from_request == requests@[from_id as int].unwrap(),
                    transitions@.len() == i * m + j,
                    forall|t: int| 0 <= t < transitions@.len() ==> #[trigger] transitions@[t] == (
                        assigned@[t / m as int],
                        assigned@[t % m as int],
                        capped_distance(requests@[assigned@[t / m as int] as int].unwrap().to, requests@[assigned@[t % m as int] as int].unwrap().from),
                    ),
                decreases m - j,
            {
                let to_id = assigned[j];
                let to_request = requests[to_id].unwrap();
                proof {
                    lemma_flat_index(i as int, j as int, m as int);
                    assert(i * m + j < m * m) by (nonlinear_arith)
                        requires
                            i < m,
                            j < m,
                    ;
                }
                transitions.push((from_id, to_id, saturating_distance(from_request.to, to_request.from)));
                j = j + 1;
            }
            assert(i * m + m == (i + 1) * m) by (nonlinear_arith);
            i = i + 1;
        }
        proof {
            assert forall|i: int, j: int| 0 <= i < m && 0 <= j < m implies #[trigger] transitions@[i * m + j] == (
                assigned@[i],
                assigned@[j],
                capped_distance(requests@[assigned@[i] as int].unwrap().to, requests@[assigned@[j] as int].unwrap().from),
            ) by {
                lemma_flat_index(i, j, m as int);
                assert(i * m + j < m * m) by (nonlinear_arith)
                    requires
                        i < m,
                        j < m,
                ;
            }
        }
        (first, transitions, last)
    }
}

} // verus!
