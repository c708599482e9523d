//! Greedy makespan assignment of pending requests to robots.
use crate::demand::Request;
use crate::plan::{manhattan, Vertex};
use crate::queue::{
    pair_le, robot_queue_change_priority, robot_queue_items, robot_queue_new, robot_queue_peek,
    robot_queue_push, RobotQueue,
};
use vstd::prelude::*;

verus! {

broadcast use crate::seq_facts::lemma_push_contains;

/// Steps a request keeps a robot busy: pick up, travel, drop off.
pub open spec fn request_cost(r: Request) -> int {
    2 + manhattan(r.from, r.to) as int
}

/// `x`, capped at the largest `u64`.
pub open spec fn capped(x: int) -> int {
    if x > u64::MAX {
        u64::MAX as int
    } else {
        x
    }
}

/// Manhattan distance, capped at the largest `u64`.
pub fn saturating_distance(a: Vertex, b: Vertex) -> (r: u64)
    ensures
        r == capped(manhattan(a, b) as int),
{
    let dx: u64 = if a.x >= b.x { a.x - b.x } else { b.x - a.x };
    let dy: u64 = if a.y >= b.y { a.y - b.y } else { b.y - a.y };
    dx.saturating_add(dy)
}

/// `r` is the robot that is free first, the lower id on ties.
pub open spec fn is_first_free(times: Seq<int>, r: int) -> bool {
    &&& 0 <= r < times.len()
    &&& forall|j: int| 0 <= j < times.len() ==> times[r] < #[trigger] times[j] || (times[r] == times[j] && r <= j)
}

pub open spec fn first_free(times: Seq<int>) -> int {
    choose|r: int| is_first_free(times, r)
}

/// The robots' free times and task queues after handing out the first `n`
/// entries of `requests` (skipping delivered ones), each to the robot free
/// first, whose free time then grows by the request's cost.
pub open spec fn greedy(times: Seq<int>, requests: Seq<Option<Request>>, n: int) -> (Seq<int>, Seq<Seq<usize>>)
    decreases n,
{
    if n <= 0 {
        (times, Seq::new(times.len(), |i: int| Seq::<usize>::empty()))
    } else {
        let (t, q) = greedy(times, requests, n - 1);
        match requests[n - 1] {
            None => (t, q),
            Some(r) => {
                let w = first_free(t);
                (t.update(w, capped(t[w] + request_cost(r))), q.update(w, q[w].push((n - 1) as usize)))
            },
        }
    }
}

proof fn lemma_greedy_len(times: Seq<int>, requests: Seq<Option<Request>>, n: int)
    requires
        times.len() > 0,
        n <= requests.len(),
    ensures
        greedy(times, requests, n).0.len() == times.len(),
        greedy(times, requests, n).1.len() == times.len(),
    decreases n,
{
    if n > 0 {
        lemma_greedy_len(times, requests, n - 1);
        let t = greedy(times, requests, n - 1).0;
        if requests[n - 1] is Some {
            lemma_first_free_exists(t);
        }
    }
}

proof fn lemma_first_free_exists(times: Seq<int>)
    requires
        times.len() > 0,
    ensures
        is_first_free(times, first_free(times)),
    decreases times.len(),
{
    if times.len() == 1 {
        assert(is_first_free(times, 0));
    } else {
        let rest = times.drop_last();
        lemma_first_free_exists(rest);
        let r = first_free(rest);
        let last = times.len() - 1;
        if times[last] < times[r] {
            assert forall|j: int| 0 <= j < times.len() implies times[last] < #[trigger] times[j] || (times[last] == times[j] && last <= j) by {
                if j < last {
                    assert(rest[j] == times[j]);
                }
            }
            assert(is_first_free(times, last));
        } else {
            assert forall|j: int| 0 <= j < times.len() implies times[r] < #[trigger] times[j] || (times[r] == times[j] && r <= j) by {
                if j < last {
                    assert(rest[j] == times[j]);
                }
            }
            assert(is_first_free(times, r));
        }
    }
}

proof fn lemma_first_free_unique(times: Seq<int>, a: int, b: int)
    requires
        is_first_free(times, a),
        is_first_free(times, b),
    ensures
        a == b,
{
    assert(times[a] < times[b] || (times[a] == times[b] && a <= b));
    assert(times[b] < times[a] || (times[b] == times[a] && b <= a));
}

/// The queues of the greedy assignment of the first `n` requests form a
/// partition of the pending ones among them: each such request lands in
/// exactly one queue, once, and no queue holds anything else.
pub proof fn lemma_greedy_partition(times: Seq<int>, requests: Seq<Option<Request>>, n: int)
    requires
        times.len() > 0,
        0 <= n <= requests.len(),
        requests.len() <= usize::MAX,
    ensures
        ({
            let q = greedy(times, requests, n).1;
            &&& q.len() == times.len()
            &&& forall|k: int| 0 <= k < q.len() ==> (#[trigger] q[k]).no_duplicates()
            &&& forall|k: int, id: usize| 0 <= k < q.len() && #[trigger] q[k].contains(id) ==> id < n && requests[id as int] is Some
            &&& forall|id: usize| id < n && (#[trigger] requests[id as int]) is Some ==> exists|k: int| 0 <= k < q.len() && #[trigger] q[k].contains(id)
            &&& forall|k1: int, k2: int, id: usize|
                0 <= k1 < q.len() && 0 <= k2 < q.len() && #[trigger] q[k1].contains(id) && #[trigger] q[k2].contains(id) ==> k1 == k2
        }),
    decreases n,
{
    lemma_greedy_len(times, requests, n);
    if n > 0 {
        lemma_greedy_partition(times, requests, n - 1);
        lemma_greedy_len(times, requests, n - 1);
        let (t, q0) = greedy(times, requests, n - 1);
        let q = greedy(times, requests, n).1;
        if requests[n - 1] is Some {
            lemma_first_free_exists(t);
            let w = first_free(t);
            let new_id = (n - 1) as usize;
            assert(q == q0.update(w, q0[w].push(new_id)));
            assert(!q0[w].contains(new_id));
            assert forall|k: int| 0 <= k < q.len() implies (#[trigger] q[k]).no_duplicates() by {
                if k == w {
                    assert(q[k] == q0[w].push(new_id));
                    assert forall|a: int, b: int| 0 <= a < q[k].len() && 0 <= b < q[k].len() && a != b implies q[k][a] != q[k][b] by {
                        if a < q0[w].len() && b < q0[w].len() {
                        } else if a == q0[w].len() {
                            assert(q0[w].contains(q[k][b]) || b == a);
                        } else {
                            assert(q0[w].contains(q[k][a]) || b == a);
                        }
                    }
                }
            }
            assert forall|k: int, id: usize| 0 <= k < q.len() && #[trigger] q[k].contains(id) implies id < n && requests[id as int] is Some by {
                if k == w {
                    assert(q0[w].push(new_id).contains(id));
                    if id != new_id {
                        assert(q0[w].contains(id));
                    }
                } else {
                    assert(q[k] == q0[k]);
                }
            }
            assert forall|id: usize| id < n && (#[trigger] requests[id as int]) is Some implies exists|k: int| 0 <= k < q.len() && #[trigger] q[k].contains(id) by {
                if id == new_id {
                    assert(q[w] == q0[w].push(new_id));
                    assert(q[w].contains(id));
                } else {
                    let k = choose|k: int| 0 <= k < q0.len() && #[trigger] q0[k].contains(id);
                    if k == w {
                        assert(q0[w].push(new_id).contains(id));
                    }
                    assert(q[k].contains(id));
                }
            }
            assert forall|k1: int, k2: int, id: usize|
                0 <= k1 < q.len() && 0 <= k2 < q.len() && #[trigger] q[k1].contains(id) && #[trigger] q[k2].contains(id) implies k1 == k2 by {
                if id == new_id {
                    if k1 != w {
                        assert(q[k1] == q0[k1]);
                    }
                    if k2 != w {
                        assert(q[k2] == q0[k2]);
                    }
                } else {
                    if k1 == w {
                        assert(q0[w].push(new_id).contains(id));
                        assert(q0[k1].contains(id));
                    } else {
                        assert(q[k1] == q0[k1]);
                    }
                    if k2 == w {
                        assert(q0[w].push(new_id).contains(id));
                        assert(q0[k2].contains(id));
                    } else {
                        assert(q[k2] == q0[k2]);
                    }
                }
            }
        } else {
            assert(q == q0);
            assert forall|k: int, id: usize| 0 <= k < q.len() && #[trigger] q[k].contains(id) implies id < n && requests[id as int] is Some by {
            }
        }
    } else {
        let q = greedy(times, requests, n).1;
        assert forall|k: int, id: usize| 0 <= k < q.len() && #[trigger] q[k].contains(id) implies id < n && requests[id as int] is Some by {
            assert(q[k].len() == 0);
        }
    }
}

/// The queue priority of a robot free at `time`: greatest for the earliest
/// time, then for the lowest id.
pub open spec fn robot_priority(time: int, robot: int) -> (u64, u64) {
    ((u64::MAX - time) as u64, (u64::MAX - robot) as u64)
}

/// Hands out requests, in ascending id order, each to the robot that is
/// free first (lowest id on ties); that robot is then busy for one step to
/// pick up, the request's distance, and one step to drop off.
pub struct GreedyMakespan {}

impl GreedyMakespan {
    pub fn new() -> (r: GreedyMakespan) {
        GreedyMakespan {}
    }

    /// One queue of request ids per robot of `availability`, whose entries
    /// are (time free, vertex where free). Every pending request lands in
    /// exactly one queue; with no robot nothing is assigned.
    pub fn calculate_assignment(&self, requests: &Vec<Option<Request>>, availability: &Vec<(usize, Vertex)>) -> (r: Vec<Vec<usize>>)
        ensures
            r@.len() == availability@.len(),
            availability@.len() > 0 ==> forall|k: int| 0 <= k < r@.len() ==> (#[trigger] r@[k])@ == greedy(
                availability@.map_values(|a: (usize, Vertex)| a.0 as int),
                requests@,
                requests@.len() as int,
            ).1[k],
    {
        let n = availability.len();
        let mut assigned: Vec<Vec<usize>> = Vec::new();
        let mut i: usize = 0;
        while i < n
            invariant
                i <= n,
                assigned@.len() == i,
                forall|k: int| 0 <= k < i ==> (#[trigger] assigned@[k])@.len() == 0,
            decreases n - i,
        {
            assigned.push(Vec::new());
            i = i + 1;
        }
        if n == 0 {
            return assigned;
        }
        let ghost times0 = availability@.map_values(|a: (usize, Vertex)| a.0 as int);
        let mut times: Vec<u64> = Vec::new();
        let mut queue = robot_queue_new();
        let mut j: usize = 0;
        while j < n
            invariant
                n == availability@.len(),
                times0 == availability@.map_values(|a: (usize, Vertex)| a.0 as int),
                j <= n,
                times@.len() == j,
                forall|k: int| 0 <= k < j ==> times@[k] == times0[k],
                forall|k: usize| #[trigger] robot_queue_items(queue).contains_key(k) <==> k < j,
                forall|k: usize| k < j ==> #[trigger] robot_queue_items(queue)[k] == robot_priority(times@[k as int] as int, k as int),
            decreases n - j,
        {
            let t = availability[j].0 as u64;
            times.push(t);
            robot_queue_push(&mut queue, j, (u64::MAX - t, u64::MAX - j as u64));
            j = j + 1;
        }
        assert(times0.len() == n);
        assert forall|k: int| 0 <= k < n implies assigned@.map_values(|v: Vec<usize>| v@)[k] == greedy(times0, requests@, 0).1[k] by {
            assert(assigned@[k]@ =~= Seq::<usize>::empty());
        }
        assert(assigned@.map_values(|v: Vec<usize>| v@) =~= greedy(times0, requests@, 0).1);
        assert(times@.map_values(|t: u64| t as int) =~= greedy(times0, requests@, 0).0);
        let mut id: usize = 0;
        while id < requests.len()
            invariant
                n == availability@.len(),
                n > 0,
                times0.len() == n,
                id <= requests@.len(),
                times@.len() == n,
                assigned@.len() == n,
                times@.map_values(|t: u64| t as int) == greedy(times0, requests@, id as int).0,
                assigned@.map_values(|v: Vec<usize>| v@) == greedy(times0, requests@, id as int).1,
                forall|k: usize| #[trigger] robot_queue_items(queue).contains_key(k) <==> k < n,
                forall|k: usize| k < n ==> #[trigger] robot_queue_items(queue)[k] == robot_priority(times@[k as int] as int, k as int),
            decreases requests@.len() - id,
        {
            proof {
                lemma_greedy_len(times0, requests@, id as int);
            }
            match requests[id] {
                None => {},
                Some(request) => {
                    let ghost tseq = times@.map_values(|t: u64| t as int);
                    let (robot, _) = match robot_queue_peek(&queue) {
                        Some(top) => top,
                        None => {
                            assert(robot_queue_items(queue).contains_key(0usize));
                            return assigned;
                        },
                    };
                    proof {
                        lemma_first_free_exists(tseq);
                        assert(is_first_free(tseq, robot as int)) by {
                            assert forall|j: int| 0 <= j < tseq.len() implies tseq[robot as int] < #[trigger] tseq[j] || (tseq[robot as int] == tseq[j] && robot as int <= j) by {
                                assert(robot_queue_items(queue).contains_key(j as usize));
                                assert(pair_le(robot_queue_items(queue)[j as usize], robot_queue_items(queue)[robot]));
                            }
                        }
                        lemma_first_free_unique(tseq, robot as int, first_free(tseq));
                    }
                    let cost = saturating_distance(request.from, request.to).saturating_add(2);
                    let old_time = times[robot];
                    let new_time = old_time.saturating_add(cost);
                    assert(new_time == capped(old_time + request_cost(request)));
                    times.set(robot, new_time);
                    let ghost before = assigned@;
                    let mut robot_tasks = Vec::new();
                    std::mem::swap(&mut robot_tasks, &mut assigned[robot]);
                    robot_tasks.push(id);
                    std::mem::swap(&mut robot_tasks, &mut assigned[robot]);
                    robot_queue_change_priority(&mut queue, robot, (u64::MAX - new_time, u64::MAX - robot as u64));
                    proof {
                        assert(assigned@ == before.update(robot as int, assigned@[robot as int]));
                        assert(assigned@.map_values(|v: Vec<usize>| v@) =~= greedy(times0, requests@, id + 1).1);
                        assert(times@.map_values(|t: u64| t as int) =~= greedy(times0, requests@, id + 1).0);
                    }
                },
            }
            proof {
                if requests@[id as int] is None {
                    assert(greedy(times0, requests@, id + 1) == greedy(times0, requests@, id as int));
                }
            }
            id = id + 1;
        }
        proof {
            assert forall|k: int| 0 <= k < assigned@.len() implies (#[trigger] assigned@[k])@ == greedy(times0, requests@, requests@.len() as int).1[k] by {
                assert(assigned@.map_values(|v: Vec<usize>| v@)[k] == assigned@[k]@);
            }
        }
        assigned
    }
}

} // verus!
