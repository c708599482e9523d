//! The world at one time step, and the history of all steps.
use crate::demand::Request;
use crate::assignment::saturating_distance;
use crate::plan::{manhattan, Vertex};
use vstd::prelude::*;

verus! {

/// A robot's place, if it is on the floor, and the parcel it carries.
#[derive(Copy, Clone, Debug, PartialEq, Eq, Structural)]
pub struct RobotState {
    pub robot_id: usize,
    pub vertex: Option<Vertex>,
    pub parcel_id: Option<usize>,
}

/// Robots indexed by id, and the pending requests indexed by id (`None`
/// once delivered).
pub struct State {
    pub robot_states: Vec<RobotState>,
    pub requests: Vec<Option<Request>>,
}

/// Robot `i` has id `i`, and a robot carrying a parcel is on the floor.
pub open spec fn robots_wf(s: Seq<RobotState>) -> bool {
    forall|i: int|
        0 <= i < s.len() ==> (#[trigger] s[i]).robot_id == i && (s[i].parcel_id is Some ==> s[i].vertex is Some)
}

/// No two robots stand on the same vertex.
pub open spec fn no_collisions(s: Seq<RobotState>) -> bool {
    forall|i: int, j: int|
        0 <= i < s.len() && 0 <= j < s.len() && i != j && (#[trigger] s[i]).vertex is Some ==> s[i].vertex
            != (#[trigger] s[j]).vertex
}

/// Every robot still on the floor moved at most one step, and was on the
/// floor before.
pub open spec fn unit_moves(prev: Seq<RobotState>, next: Seq<RobotState>) -> bool {
    forall|i: int|
        0 <= i < next.len() && (#[trigger] next[i]).vertex is Some ==> prev[i].vertex is Some && manhattan(
            prev[i].vertex.unwrap(),
            next[i].vertex.unwrap(),
        ) <= 1
}

/// No two robots traded places.
pub open spec fn no_swaps(prev: Seq<RobotState>, next: Seq<RobotState>) -> bool {
    forall|i: int, j: int|
        0 <= i < next.len() && 0 <= j < next.len() && i != j && (#[trigger] next[i]).vertex is Some
            && prev[j].vertex is Some && next[i].vertex == prev[j].vertex ==> (#[trigger] next[j]).vertex
            != prev[i].vertex
}

/// Requests only ever leave the pending table.
pub open spec fn requests_shrink(prev: Seq<Option<Request>>, next: Seq<Option<Request>>) -> bool {
    &&& next.len() == prev.len()
    &&& forall|id: int| 0 <= id < next.len() && (#[trigger] next[id]) is Some ==> next[id] == prev[id]
}

/// A legal step from `prev` to `next`.
pub open spec fn valid_step(prev: &State, next: &State) -> bool {
    &&& next.robot_states@.len() == prev.robot_states@.len()
    &&& robots_wf(next.robot_states@)
    &&& no_collisions(next.robot_states@)
    &&& unit_moves(prev.robot_states@, next.robot_states@)
    &&& no_swaps(prev.robot_states@, next.robot_states@)
    &&& requests_shrink(prev.requests@, next.requests@)
}

impl State {
    /// Robot ids are dense and no two robots share a vertex.
    pub open spec fn wf(&self) -> bool {
        robots_wf(self.robot_states@) && no_collisions(self.robot_states@)
    }

    /// Are all requests delivered?
    pub fn is_done(&self) -> (r: bool)
        ensures
            r == forall|id: int| 0 <= id < self.requests@.len() ==> (#[trigger] self.requests@[id]) is None,
    {
        let mut i: usize = 0;
        while i < self.requests.len()
            invariant
                i <= self.requests@.len(),
                forall|id: int| 0 <= id < i ==> (#[trigger] self.requests@[id]) is None,
            decreases self.requests@.len() - i,
        {
            if self.requests[i].is_some() {
                return false;
            }
            i = i + 1;
        }
        true
    }

    /// A copy of this state.
    pub fn copy(&self) -> (r: State)
        ensures
            r.robot_states@ == self.robot_states@,
            r.requests@ == self.requests@,
    {
        let mut robot_states: Vec<RobotState> = Vec::new();
        let mut i: usize = 0;
        while i < self.robot_states.len()
            invariant
                i <= self.robot_states@.len(),
                robot_states@ == self.robot_states@.take(i as int),
            decreases self.robot_states@.len() - i,
        {
            robot_states.push(self.robot_states[i]);
            i = i + 1;
        }
        let mut requests: Vec<Option<Request>> = Vec::new();
        let mut j: usize = 0;
        while j < self.requests.len()
            invariant
                j <= self.requests@.len(),
                requests@ == self.requests@.take(j as int),
            decreases self.requests@.len() - j,
        {
            requests.push(self.requests[j]);
            j = j + 1;
        }
        assert(robot_states@ =~= self.robot_states@);
        assert(requests@ =~= self.requests@);
        State { robot_states, requests }
    }
}

/// Are all requests of `s` delivered?
pub open spec fn all_done(s: &State) -> bool {
    forall|id: int| 0 <= id < s.requests@.len() ==> (#[trigger] s.requests@[id]) is None
}

/// Did robot `r` change vertex between `a` and `b` (both on the floor)?
pub open spec fn moved(a: &State, b: &State, r: int) -> bool {
    &&& 0 <= r < a.robot_states@.len()
    &&& 0 <= r < b.robot_states@.len()
    &&& a.robot_states@[r].vertex is Some
    &&& b.robot_states@[r].vertex is Some
    &&& a.robot_states@[r].vertex != b.robot_states@[r].vertex
}

/// Steps among the first `n` states in which robot `r` moved.
pub open spec fn travel(states: Seq<State>, r: int, n: int) -> int
    decreases n,
{
    if n <= 1 {
        0
    } else {
        travel(states, r, n - 1) + if moved(&states[n - 2], &states[n - 1], r) {
            1int
        } else {
            0
        }
    }
}

/// Summed distance of the first `n` requests of `first` that are no longer
/// pending in `last`, capped at the largest `u64`.
pub open spec fn delivered_distance(first: Seq<Option<Request>>, last: Seq<Option<Request>>, n: int) -> int
    decreases n,
{
    if n <= 0 {
        0
    } else {
        let rest = delivered_distance(first, last, n - 1);
        let add = match first[n - 1] {
            Some(q) => if n - 1 < last.len() && last[n - 1] is None {
                manhattan(q.from, q.to) as int
            } else {
                0
            },
            None => 0,
        };
        if rest + add > u64::MAX {
            u64::MAX as int
        } else {
            rest + add
        }
    }
}

/// What a finished run amounts to.
pub struct Statistics {
    /// The first time at which no request is pending, if any.
    pub makespan: Option<usize>,
    /// Distance from source to terminal summed over the delivered requests.
    pub delivered_distance: u64,
    /// For each robot, the number of steps in which it moved.
    pub robot_travel: Vec<usize>,
}

/// All states so far; state `t` is the world at time `t`.
pub struct History {
    pub states: Vec<State>,
}

impl History {
    /// Every state is well formed and each follows from the one before by a
    /// legal step.
    pub open spec fn wf(&self) -> bool {
        &&& forall|t: int| 0 <= t < self.states@.len() ==> (#[trigger] self.states@[t]).wf()
        &&& forall|t: int| 0 < t < self.states@.len() ==> valid_step(&self.states@[t - 1], #[trigger] &self.states@[t])
    }

    pub fn empty() -> (r: History)
        ensures
            r.states@.len() == 0,
            r.wf(),
    {
        History { states: Vec::new() }
    }

    /// The latest state.
    pub fn last_state(&self) -> (r: &State)
        requires
            self.states@.len() > 0,
        ensures
            *r == self.states@.last(),
    {
        &self.states[self.states.len() - 1]
    }

    /// The latest state of robot `robot`.
    pub fn last_robot_state(&self, robot: usize) -> (r: RobotState)
        requires
            self.states@.len() > 0,
            robot < self.states@.last().robot_states@.len(),
        ensures
            r == self.states@.last().robot_states@[robot as int],
    {
        self.last_state().robot_states[robot]
    }

    /// Number of states recorded.
    pub fn time(&self) -> (r: usize)
        ensures
            r == self.states@.len(),
    {
        self.states.len()
    }

    /// Makespan, delivered distance and per-robot travel of the run.
    pub fn calculate_statistics(&self) -> (r: Statistics)
        ensures
            r.makespan matches Some(t) ==> t < self.states@.len() && all_done(&self.states@[t as int]) && forall|u: int|
                0 <= u < t ==> !all_done(#[trigger] &self.states@[u]),
            r.makespan is None ==> forall|u: int| 0 <= u < self.states@.len() ==> !all_done(#[trigger] &self.states@[u]),
            self.states@.len() > 0 ==> r.delivered_distance == delivered_distance(
                self.states@[0].requests@,
                self.states@.last().requests@,
                self.states@[0].requests@.len() as int,
            ),
            self.states@.len() == 0 ==> r.delivered_distance == 0 && r.robot_travel@.len() == 0,
            self.states@.len() > 0 ==> r.robot_travel@.len() == self.states@[0].robot_states@.len(),
            forall|k: int| 0 <= k < r.robot_travel@.len() ==> #[trigger] r.robot_travel@[k] == travel(self.states@, k, self.states@.len() as int),
    {
        let n = self.states.len();
        let mut makespan: Option<usize> = None;
        let mut t: usize = 0;
        while t < n
            invariant
                n == self.states@.len(),
                t <= n,
                makespan is None ==> forall|u: int| 0 <= u < t ==> !all_done(#[trigger] &self.states@[u]),
                makespan matches Some(m) ==> m < t && all_done(&self.states@[m as int]) && forall|u: int|
                    0 <= u < m ==> !all_done(#[trigger] &self.states@[u]),
            decreases n - t,
        {
            if makespan.is_none() && self.states[t].is_done() {
                makespan = Some(t);
            }
            t = t + 1;
        }
        if n == 0 {
            return Statistics { makespan, delivered_distance: 0, robot_travel: Vec::new() };
        }
        let first = &self.states[0];
        let last = &self.states[n - 1];
        let mut total: u64 = 0;
        let mut id: usize = 0;
        while id < first.requests.len()
            invariant
                n == self.states@.len(),
                n > 0,
                *first == self.states@[0],
                *last == self.states@.last(),
                id <= first.requests@.len(),
                total == delivered_distance(first.requests@, last.requests@, id as int),
            decreases first.requests@.len() - id,
        {
            match first.requests[id] {
                Some(q) => {
                    if id < last.requests.len() && last.requests[id].is_none() {
                        total = total.saturating_add(saturating_distance(q.from, q.to));
                        assert(total == delivered_distance(first.requests@, last.requests@, id + 1));
                    }
                },
                None => {},
            }
            id = id + 1;
        }
        let nr_robots = first.robot_states.len();
        let mut robot_travel: Vec<usize> = Vec::new();
        let mut r: usize = 0;
        while r < nr_robots
            invariant
                n == self.states@.len(),
                n > 0,
                nr_robots == self.states@[0].robot_states@.len(),
                r <= nr_robots,
                robot_travel@.len() == r,
                forall|k: int| 0 <= k < r ==> #[trigger] robot_travel@[k] == travel(self.states@, k, n as int),
            decreases nr_robots - r,
        {
            let mut count: usize = 0;
            let mut u: usize = 1;
            while u < n
                invariant
                    n == self.states@.len(),
                    1 <= u <= n,
                    count == travel(self.states@, r as int, u as int),
                    count < u,
                decreases n - u,
            {
                let a = &self.states[u - 1];
                let b = &self.states[u];
                if r < a.robot_states.len() && r < b.robot_states.len() && a.robot_states[r].vertex.is_some()
                    && b.robot_states[r].vertex.is_some() && a.robot_states[r].vertex != b.robot_states[r].vertex {
                    count = count + 1;
                }
                u = u + 1;
            }
            robot_travel.push(count);
            r = r + 1;
        }
        Statistics { makespan, delivered_distance: total, robot_travel }
    }

    /// Appends a state reached by a legal step.
    pub fn push(&mut self, state: State)
        requires
            old(self).wf(),
            state.wf(),
            old(self).states@.len() > 0 ==> valid_step(&old(self).states@.last(), &state),
        ensures
            final(self).wf(),
            final(self).states@ == old(self).states@.push(state),
    {
        self.states.push(state);
    }
}

} // verus!
