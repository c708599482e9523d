//! The path engine: turns assignments into reserved, collision-free paths
//! and emits one step's instructions.
use crate::assignment::{greedy, GreedyMakespan};
use crate::demand::Request;
use crate::instruction::{Instruction, Instructions, MoveInstruction, ParcelInstruction, RobotRemovalInstruction};
use crate::plan::{Plan, Vertex};
use crate::settings::Settings;
use crate::state::{History, RobotState, State};
use crate::time_graph::{Path, TimeGraph};
use vstd::prelude::*;

verus! {

/// The planner found no path for a request.
pub struct NoSolutionError {
    message: String,
}

impl NoSolutionError {
    pub fn new(message: String) -> (r: NoSolutionError)
        ensures
            r.message() == message,
    {
        NoSolutionError { message }
    }

    pub closed spec fn message(&self) -> String {
        self.message
    }

    /// What went wrong.
    pub fn text(&self) -> (r: &String)
        ensures
            *r == self.message(),
    {
        &self.message
    }
}

/// The two legs of a task: to the request's source, then to its terminal.
#[derive(Debug, PartialEq, Eq)]
pub enum PathType {
    Pickup(Path),
    Delivery(Path),
}

impl PathType {
    pub open spec fn spec_path(&self) -> &Path {
        match self {
            PathType::Pickup(p) => p,
            PathType::Delivery(p) => p,
        }
    }

    /// The leg's path.
    pub fn path(&self) -> (r: &Path)
        ensures
            r == self.spec_path(),
    {
        match self {
            PathType::Pickup(p) => p,
            PathType::Delivery(p) => p,
        }
    }
}

/// A robot's task: the request id and, once reserved, the current leg.
pub type Task = (usize, Option<PathType>);

/// A path whose times are all representable, with room for the rest step.
pub open spec fn path_ok(p: &Path) -> bool {
    p.nodes@.len() >= 1 && p.start_time + p.nodes@.len() < usize::MAX
}

/// What robot with state `rs` and task `task` is told to do at `time`:
/// at the end of a pickup leg it picks the parcel up; one step before a
/// delivery leg it picks the parcel up unless it carries it; at the end of a
/// delivery leg it drops the parcel; in between it moves to the leg's next
/// node, unless it is already there. A robot with no task and nothing left
/// in its queue leaves the floor.
pub open spec fn robot_instruction(task: Option<Task>, queue_empty: bool, time: int, rs: RobotState) -> Option<Instruction> {
    match (rs.vertex, task) {
        (Some(v), None) => if queue_empty {
            Some(Instruction::RemoveRobot(RobotRemovalInstruction { robot_id: rs.robot_id, vertex: v }))
        } else {
            None
        },
        (Some(v), Some((parcel, Some(PathType::Pickup(p))))) => {
            let end = p.spec_end_time();
            if time == end {
                Some(Instruction::Place(ParcelInstruction { robot_id: rs.robot_id, parcel, vertex: v }))
            } else if time < end && time + 1 >= p.start_time && p.nodes@[time + 1 - p.start_time] != v {
                Some(Instruction::Move(MoveInstruction { robot_id: rs.robot_id, vertex: p.nodes@[time + 1 - p.start_time] }))
            } else {
                None
            }
        },
        (Some(v), Some((parcel, Some(PathType::Delivery(p))))) => {
            let end = p.spec_end_time();
            if time + 1 == p.start_time && rs.parcel_id != Some(parcel) {
                Some(Instruction::Place(ParcelInstruction { robot_id: rs.robot_id, parcel, vertex: v }))
            } else if time == end {
                Some(Instruction::Remove(ParcelInstruction { robot_id: rs.robot_id, parcel, vertex: v }))
            } else if time < end && time + 1 >= p.start_time && p.nodes@[time + 1 - p.start_time] != v {
                Some(Instruction::Move(MoveInstruction { robot_id: rs.robot_id, vertex: p.nodes@[time + 1 - p.start_time] }))
            } else {
                None
            }
        },
        _ => None,
    }
}

/// The four instruction lists of a batch.
pub type Batch = (Seq<MoveInstruction>, Seq<ParcelInstruction>, Seq<ParcelInstruction>, Seq<RobotRemovalInstruction>);

pub open spec fn batch_of(i: &Instructions) -> Batch {
    (i.movements@, i.placements@, i.removals@, i.robot_removals@)
}

/// `b` with instruction `i`, if any, appended to its list.
pub open spec fn add_instruction(b: Batch, i: Option<Instruction>) -> Batch {
    match i {
        Some(Instruction::Move(m)) => (b.0.push(m), b.1, b.2, b.3),
        Some(Instruction::Place(m)) => (b.0, b.1.push(m), b.2, b.3),
        Some(Instruction::Remove(m)) => (b.0, b.1, b.2.push(m), b.3),
        Some(Instruction::RemoveRobot(m)) => (b.0, b.1, b.2, b.3.push(m)),
        None => b,
    }
}

/// The instructions of the first `k` robots, in id order.
pub open spec fn batch_for(tasks: Seq<Option<Task>>, queues: Seq<Vec<usize>>, time: int, robots: Seq<RobotState>, k: int) -> Batch
    decreases k,
{
    if k <= 0 {
        (Seq::empty(), Seq::empty(), Seq::empty(), Seq::empty())
    } else {
        add_instruction(
            batch_for(tasks, queues, time, robots, k - 1),
            robot_instruction(tasks[k - 1], queues[k - 1]@.len() == 0, time, robots[k - 1]),
        )
    }
}

/// The request a task is for.
pub open spec fn task_request(t: Option<Task>) -> Option<usize> {
    match t {
        Some((p, _)) => Some(p),
        None => None,
    }
}

/// Is request `id` the task of some robot?
pub open spec fn is_active(tasks: Seq<Option<Task>>, id: usize) -> bool {
    exists|r: int| 0 <= r < tasks.len() && task_request(#[trigger] tasks[r]) == Some(id)
}

/// The pending requests that no robot has taken up yet.
pub open spec fn unassigned(requests: Seq<Option<Request>>, tasks: Seq<Option<Task>>) -> Seq<Option<Request>> {
    Seq::new(requests.len(), |id: int| if is_active(tasks, id as usize) { None } else { requests[id] })
}

/// When and where a robot with `task` and state `rs` is next free: after
/// its current leg and two more steps, at the leg's end; now, where it
/// stands, without a leg; never, off the floor.
pub open spec fn availability_of(task: Option<Task>, time: int, rs: RobotState) -> (int, Vertex) {
    match task {
        Some((_, Some(pt))) => (pt.spec_path().spec_end_time() + 2, pt.spec_path().nodes@.last()),
        _ => match rs.vertex {
            Some(v) => (time, v),
            None => (usize::MAX as int, Vertex { x: 0, y: 0 }),
        },
    }
}

/// `after` is `before` with instruction `i`, if any, appended to its list.
pub open spec fn appended(before: &Instructions, after: &Instructions, i: Option<Instruction>) -> bool {
    &&& after.movements@ == match i {
        Some(Instruction::Move(m)) => before.movements@.push(m),
        _ => before.movements@,
    }
    &&& after.placements@ == match i {
        Some(Instruction::Place(m)) => before.placements@.push(m),
        _ => before.placements@,
    }
    &&& after.removals@ == match i {
        Some(Instruction::Remove(m)) => before.removals@.push(m),
        _ => before.removals@,
    }
    &&& after.robot_removals@ == match i {
        Some(Instruction::RemoveRobot(m)) => before.robot_removals@.push(m),
        _ => before.robot_removals@,
    }
}

/// Did the latest state bring requests that the one before did not have?
/// The first step always counts as new.
pub open spec fn brings_new_requests(history: &History) -> bool {
    history.states@.len() == 1 || exists|id: int|
        0 <= id < history.states@.last().requests@.len() && (#[trigger] history.states@.last().requests@[id]) is Some && (
        id >= history.states@[history.states@.len() - 2].requests@.len()
            || history.states@[history.states@.len() - 2].requests@[id] is None)
}

/// How a robot's task may change in one update: an idle robot with an
/// empty queue stays idle, and a leg still running is kept.
pub open spec fn task_kept(before: Option<Task>, queue_empty: bool, time: int, after: Option<Task>) -> bool {
    &&& (before is None && queue_empty ==> after is None)
    &&& (before matches Some((_, Some(pt))) && time <= pt.spec_path().spec_end_time() ==> after == before)
}

/// Greedy planning: requests are assigned by greedy makespan, and each
/// robot reserves the earliest path for its next leg on the time graph,
/// robots in ascending id order.
pub struct GreedyShortestPaths {
    time_graph: TimeGraph,
    assignment_algorithm: GreedyMakespan,
    time: usize,
    assignment: Vec<Vec<usize>>,
    active_paths: Vec<Option<Task>>,
}

impl GreedyShortestPaths {
    pub closed spec fn wf<P: Plan>(&self, plan: &P) -> bool {
        &&& self.time_graph.fits(plan)
        &&& self.time_graph.earliest() <= self.time
        &&& 1 <= self.time
        &&& self.assignment@.len() == self.active_paths@.len()
        &&& forall|r: int| 0 <= r < self.active_paths@.len() ==> match #[trigger] self.active_paths@[r] {
            Some((_, Some(pt))) => path_ok(pt.spec_path()),
            _ => true,
        }
    }

    pub closed spec fn nr_robots(&self) -> nat {
        self.active_paths@.len()
    }

    pub closed spec fn spec_time(&self) -> int {
        self.time as int
    }

    pub closed spec fn task(&self, robot: int) -> Option<Task> {
        self.active_paths@[robot]
    }

    pub closed spec fn tasks(&self) -> Seq<Option<Task>> {
        self.active_paths@
    }

    pub closed spec fn queues(&self) -> Seq<Vec<usize>> {
        self.assignment@
    }

    pub fn new<P: Plan>(plan: &P, settings: &Settings) -> (r: GreedyShortestPaths)
        requires
            plan.wf(),
            settings.total_time < usize::MAX,
        ensures
            r.wf(plan),
            r.nr_robots() == settings.nr_robots,
            r.spec_time() == 1,
            forall|i: int| 0 <= i < settings.nr_robots ==> r.task(i) is None,
    {
        let time_graph = TimeGraph::from_plan(plan, settings.total_time);
        let mut assignment: Vec<Vec<usize>> = Vec::new();
        let mut active_paths: Vec<Option<Task>> = Vec::new();
        let mut i: usize = 0;
        while i < settings.nr_robots
            invariant
                i <= settings.nr_robots,
                assignment@.len() == i,
                active_paths@.len() == i,
                forall|k: int| 0 <= k < i ==> (#[trigger] active_paths@[k]) is None,
            decreases settings.nr_robots - i,
        {
            assignment.push(Vec::new());
            active_paths.push(None);
            i = i + 1;
        }
        let r = GreedyShortestPaths { time_graph, assignment_algorithm: GreedyMakespan::new(), time: 1, assignment, active_paths };
        r
    }

    /// Current step.
    pub fn time(&self) -> (r: usize)
        ensures
            r == self.spec_time(),
    {
        self.time
    }

    /// Robot `robot`'s current task.
    pub fn active_path(&self, robot: usize) -> (r: &Option<Task>)
        requires
            robot < self.nr_robots(),
        ensures
            *r == self.task(robot as int),
    {
        &self.active_paths[robot]
    }

    /// Nothing to prepare before the first step.
    pub fn initialize(&mut self) -> (r: Result<(), NoSolutionError>)
        ensures
            r is Ok,
            *final(self) == *old(self),
    {
        Ok(())
    }

    /// Emits robot `robot`'s instruction for this step, if any.
    fn get_robot_instruction(&self, robot: usize, rs: RobotState, instructions: &mut Instructions)
        requires
            robot < self.active_paths@.len(),
            self.assignment@.len() == self.active_paths@.len(),
            self.time < usize::MAX,
            forall|r: int| 0 <= r < self.active_paths@.len() ==> match #[trigger] self.active_paths@[r] {
                Some((_, Some(pt))) => path_ok(pt.spec_path()),
                _ => true,
            },
        ensures
            appended(old(instructions), final(instructions), robot_instruction(self.task(robot as int), self.assignment@[robot as int]@.len() == 0, self.time as int, rs)),
    {
        let vertex = match rs.vertex {
            None => return,
            Some(v) => v,
        };
        let time = self.time;
        match &self.active_paths[robot] {
            Some((parcel, Some(PathType::Pickup(path)))) => {
                let end = path.end_time();
                if time == end {
                    instructions.placements.push(ParcelInstruction { robot_id: rs.robot_id, parcel: *parcel, vertex });
                } else if time < end && time + 1 >= path.start_time {
                    let next = path.nodes[time + 1 - path.start_time];
                    if next != vertex {
                        instructions.movements.push(MoveInstruction { robot_id: rs.robot_id, vertex: next });
                    }
                }
            },
            Some((parcel, Some(PathType::Delivery(path)))) => {
                let end = path.end_time();
                if time + 1 == path.start_time && rs.parcel_id != Some(*parcel) {
                    instructions.placements.push(ParcelInstruction { robot_id: rs.robot_id, parcel: *parcel, vertex });
                } else if time == end {
                    instructions.removals.push(ParcelInstruction { robot_id: rs.robot_id, parcel: *parcel, vertex });
                } else if time < end && time + 1 >= path.start_time {
                    let next = path.nodes[time + 1 - path.start_time];
                    if next != vertex {
                        instructions.movements.push(MoveInstruction { robot_id: rs.robot_id, vertex: next });
                    }
                }
            },
            None => {
                if self.assignment[robot].len() == 0 {
                    instructions.robot_removals.push(RobotRemovalInstruction { robot_id: rs.robot_id, vertex });
                }
            },
            _ => {},
        }
    }

    /// Reserves the next leg of the task for request `parcel` of a robot
    /// holding `vertex`: the delivery leg, starting next step, when the robot
    /// is at the request's source; else the pickup leg, starting now. The task is
    /// dropped once its request is no longer pending, and kept without a leg
    /// when no path is found (it is retried next step).
    fn plan_task<P: Plan>(
        &mut self,
        plan: &P,
        parcel: usize,
        vertex: Option<Vertex>,
        requests: &Vec<Option<Request>>,
        avoid: &Vec<Vertex>,
    ) -> (r: Option<Task>)
        requires
            old(self).time_graph.fits(plan),
            old(self).time_graph.earliest() <= old(self).time,
            old(self).time + 1 < usize::MAX,
        ensures
            final(self).time_graph.fits(plan),
            final(self).time_graph.earliest() == old(self).time_graph.earliest(),
            final(self).time == old(self).time,
            final(self).assignment == old(self).assignment,
            final(self).active_paths == old(self).active_paths,
            r matches Some((_, Some(pt))) ==> path_ok(pt.spec_path()),
            r matches Some((q, _)) ==> q == parcel,
            r is None <==> (parcel >= requests@.len() || requests@[parcel as int] is None),
            r matches Some((_, Some(PathType::Delivery(p)))) ==> vertex == Some(requests@[parcel as int].unwrap().from)
                && p.start_time == old(self).time + 1 && p.nodes@.last() == requests@[parcel as int].unwrap().to,
            r matches Some((_, Some(PathType::Pickup(p)))) ==> vertex != Some(requests@[parcel as int].unwrap().from)
                && p.start_time == old(self).time && p.nodes@.last() == requests@[parcel as int].unwrap().from,
            r matches Some((_, None)) ==> final(self).time_graph.extends(&old(self).time_graph, plan),
    {
        if parcel >= requests.len() {
            return None;
        }
        let request = match requests[parcel] {
            None => return None,
            Some(q) => q,
        };
        let current = match vertex {
            None => {
                proof {
                    TimeGraph::lemma_extends_refl(&self.time_graph, plan);
                }
                return Some((parcel, None));
            },
            Some(v) => v,
        };
        let ghost g0 = self.time_graph;
        let at_source = current == request.from;
        let found = if at_source {
            self.time_graph.find_path_from(plan, self.time + 1, request.from, request.to, avoid)
        } else {
            self.time_graph.find_path_from(plan, self.time, current, request.from, avoid)
        };
        proof {
            self.time_graph.lemma_extends_facts(&g0, plan);
            self.time_graph.lemma_fits_wf(plan);
        }
        match found {
            None => Some((parcel, None)),
            Some(path) => {
                proof {
                    self.time_graph.lemma_horizon_fits();
                }
                let ghost g1 = self.time_graph;
                self.time_graph.remove_path(&path);
                proof {
                    TimeGraph::lemma_fits_fewer_free(&g1, &self.time_graph, plan);
                }
                if at_source {
                    Some((parcel, Some(PathType::Delivery(path))))
                } else {
                    Some((parcel, Some(PathType::Pickup(path))))
                }
            },
        }
    }

    /// Where the robots other than `robot` stand once their current leg, if
    /// any, is done: the leg's last node, or the robot's vertex.
    fn standing_vertices(&self, state: &State, robot: usize) -> (r: Vec<Vertex>)
        requires
            state.robot_states@.len() == self.active_paths@.len(),
            forall|k: int| 0 <= k < self.active_paths@.len() ==> match #[trigger] self.active_paths@[k] {
                Some((_, Some(pt))) => path_ok(pt.spec_path()),
                _ => true,
            },
    {
        let mut r: Vec<Vertex> = Vec::new();
        let mut k: usize = 0;
        while k < self.active_paths.len()
            invariant
                state.robot_states@.len() == self.active_paths@.len(),
                k <= self.active_paths@.len(),
                forall|j: int| 0 <= j < self.active_paths@.len() ==> match #[trigger] self.active_paths@[j] {
                    Some((_, Some(pt))) => path_ok(pt.spec_path()),
                    _ => true,
                },
            decreases self.active_paths@.len() - k,
        {
            if k != robot {
                match &self.active_paths[k] {
                    Some((_, Some(pt))) => {
                        let path = pt.path();
                        r.push(path.nodes[path.nodes.len() - 1]);
                    },
                    _ => match state.robot_states[k].vertex {
                        Some(v) => r.push(v),
                        None => {},
                    },
                }
            }
            k = k + 1;
        }
        r
    }

    /// Keeps `v` taken around the current step, for a robot that stands
    /// there without a leg.
    fn hold_vertex<P: Plan>(&mut self, plan: &P, v: Vertex)
        requires
            old(self).time_graph.fits(plan),
            old(self).time_graph.earliest() <= old(self).time,
        ensures
            final(self).time_graph.fits(plan),
            final(self).time_graph.earliest() == old(self).time_graph.earliest(),
            final(self).time == old(self).time,
            final(self).assignment == old(self).assignment,
            final(self).active_paths == old(self).active_paths,
    {
        proof {
            self.time_graph.lemma_fits_wf(plan);
        }
        let stand = Path { start_time: self.time, nodes: vec![v] };
        let ghost g0 = self.time_graph;
        self.time_graph.remove_path(&stand);
        proof {
            TimeGraph::lemma_fits_fewer_free(&g0, &self.time_graph, plan);
        }
    }

    /// Advances every robot's task: finished legs end (a finished pickup
    /// keeps its request for the delivery, a finished delivery frees the
    /// robot), idle robots take the next request of their queue, and every
    /// robot without a leg keeps its vertex taken around this step. Then
    /// every task without a leg tries to reserve one, in robot id order,
    /// starting from the vertex the robot holds.
    #[verifier::rlimit(100)]
    fn update_paths<P: Plan>(&mut self, plan: &P, state: &State)
        requires
            old(self).wf(plan),
            state.robot_states@.len() == old(self).nr_robots(),
            old(self).time + 1 < usize::MAX,
        ensures
            final(self).wf(plan),
            final(self).nr_robots() == old(self).nr_robots(),
            final(self).time == old(self).time,
            forall|r: int| 0 <= r < old(self).active_paths@.len() ==> task_kept(
                #[trigger] old(self).active_paths@[r],
                old(self).assignment@[r]@.len() == 0,
                old(self).time as int,
                final(self).active_paths@[r],
            ),
    {
        let n = self.active_paths.len();
        let ghost t0 = self.active_paths@;
        let ghost q0 = self.assignment@;
        let mut robot: usize = 0;
        while robot < n
            invariant
                self.wf(plan),
                n == self.active_paths@.len(),
                state.robot_states@.len() == n,
                self.time == old(self).time,
                self.time + 1 < usize::MAX,
                robot <= n,
                t0 == old(self).active_paths@,
                q0 == old(self).assignment@,
                forall|r: int| robot <= r < n ==> #[trigger] self.active_paths@[r] == t0[r] && self.assignment@[r] == q0[r],
                forall|r: int| 0 <= r < robot ==> task_kept(t0[r], q0[r]@.len() == 0, self.time as int, #[trigger] self.active_paths@[r]),
            decreases n - robot,
        {
            let ghost asg0 = self.assignment@;
            let ghost ap0 = self.active_paths@;
            assert forall|r: int| robot <= r < n implies ap0[r] == t0[r] && asg0[r] == q0[r] by {
                assert(self.active_paths@[r] == t0[r]);
            }
            let mut entry: Option<Task> = None;
            std::mem::swap(&mut entry, &mut self.active_paths[robot]);
            let time = self.time;
            let entry1: Option<Task> = match entry {
                Some((parcel, Some(PathType::Pickup(path)))) => {
                    if time > path.end_time() {
                        Some((parcel, None))
                    } else {
                        Some((parcel, Some(PathType::Pickup(path))))
                    }
                },
                Some((parcel, Some(PathType::Delivery(path)))) => {
                    if time > path.end_time() {
                        None
                    } else {
                        Some((parcel, Some(PathType::Delivery(path))))
                    }
                },
                other => other,
            };
            let mut entry2: Option<Task> = match entry1 {
                None => {
                    let mut queue: Vec<usize> = Vec::new();
                    std::mem::swap(&mut queue, &mut self.assignment[robot]);
                    let next = if queue.len() > 0 {
                        Some((queue.remove(0), None))
                    } else {
                        None
                    };
                    std::mem::swap(&mut queue, &mut self.assignment[robot]);
                    next
                },
                other => other,
            };
            let without_leg = match &entry2 {
                Some((_, Some(_))) => false,
                _ => true,
            };
            if without_leg {
                match state.robot_states[robot].vertex {
                    Some(v) => self.hold_vertex(plan, v),
                    None => {},
                }
            }
            let ghost before = self.active_paths@;
            assert(task_kept(t0[robot as int], q0[robot as int]@.len() == 0, self.time as int, entry2));
            assert forall|r: int| robot < r < n implies self.assignment@[r] == asg0[r] by {
                assert(self.assignment@.len() == asg0.len());
            }
            let ghost asg_mid = self.assignment@;
            assert forall|r: int| robot < r < n implies self.active_paths@[r] == t0[r] && asg_mid[r] == q0[r] by {
                assert(ap0[r] == t0[r]);
            }
            let ghost tasks_now = self.active_paths@;
            std::mem::swap(&mut entry2, &mut self.active_paths[robot]);
            assert forall|r: int| 0 <= r < self.active_paths@.len() implies match #[trigger] self.active_paths@[r] {
                Some((_, Some(pt))) => path_ok(pt.spec_path()),
                _ => true,
            } by {
                if r != robot {
                    assert(self.active_paths@[r] == before[r]);
                }
            }
            assert forall|r: int| 0 <= r < robot + 1 implies task_kept(t0[r], q0[r]@.len() == 0, self.time as int, #[trigger] self.active_paths@[r]) by {
                if r != robot {
                    assert(self.active_paths@[r] == before[r]);
                }
            }
            assert forall|r: int| robot + 1 <= r < n implies #[trigger] self.active_paths@[r] == t0[r] && self.assignment@[r] == q0[r] by {
                assert(self.active_paths@[r] == before[r]);
                assert(asg0[r] == q0[r]);
                assert(asg_mid[r] == asg0[r]);
            }
            robot = robot + 1;
        }
        let ghost mid = self.active_paths@;
        let mut robot: usize = 0;
        while robot < n
            invariant
                self.wf(plan),
                n == self.active_paths@.len(),
                state.robot_states@.len() == n,
                self.time == old(self).time,
                self.time + 1 < usize::MAX,
                robot <= n,
                mid.len() == n,
                forall|r: int| robot <= r < n ==> #[trigger] self.active_paths@[r] == mid[r],
                forall|r: int| 0 <= r < robot ==> #[trigger] self.active_paths@[r] == mid[r] || mid[r] matches Some((_, None)),
            decreases n - robot,
        {
            let mut entry: Option<Task> = None;
            std::mem::swap(&mut entry, &mut self.active_paths[robot]);
            let mut entry3: Option<Task> = match entry {
                Some((parcel, None)) => {
                    let avoid = self.standing_vertices(state, robot);
                    self.plan_task(plan, parcel, state.robot_states[robot].vertex, &state.requests, &avoid)
                },
                other => other,
            };
            let ghost before = self.active_paths@;
            assert(entry3 == mid[robot as int] || mid[robot as int] matches Some((_, None)));
            std::mem::swap(&mut entry3, &mut self.active_paths[robot]);
            assert forall|r: int| 0 <= r < self.active_paths@.len() implies match #[trigger] self.active_paths@[r] {
                Some((_, Some(pt))) => path_ok(pt.spec_path()),
                _ => true,
            } by {
                if r != robot {
                    assert(self.active_paths@[r] == before[r]);
                }
            }
            assert forall|r: int| 0 <= r < robot + 1 implies #[trigger] self.active_paths@[r] == mid[r] || mid[r] matches Some((_, None)) by {
                if r != robot {
                    assert(self.active_paths@[r] == before[r]);
                }
            }
            robot = robot + 1;
        }
        assert forall|r: int| 0 <= r < n implies task_kept(#[trigger] t0[r], q0[r]@.len() == 0, old(self).time as int, self.active_paths@[r]) by {
            assert(task_kept(t0[r], q0[r]@.len() == 0, old(self).time as int, mid[r]));
        }
    }


    /// Each robot's (time, vertex) of next availability.
    fn get_earliest_availability(&self, state: &State) -> (r: Vec<(usize, Vertex)>)
        requires
            forall|k: int| 0 <= k < self.active_paths@.len() ==> match #[trigger] self.active_paths@[k] {
                Some((_, Some(pt))) => path_ok(pt.spec_path()),
                _ => true,
            },
            state.robot_states@.len() == self.active_paths@.len(),
        ensures
            r@.len() == self.active_paths@.len(),
            forall|k: int| 0 <= k < r@.len() ==> (#[trigger] r@[k]).0 as int == availability_of(self.active_paths@[k], self.time as int, state.robot_states@[k]).0
                && r@[k].1 == availability_of(self.active_paths@[k], self.time as int, state.robot_states@[k]).1,
    {
        let n = self.active_paths.len();
        let mut r: Vec<(usize, Vertex)> = Vec::new();
        let mut k: usize = 0;
        while k < n
            invariant
                n == self.active_paths@.len(),
                state.robot_states@.len() == n,
                k <= n,
                r@.len() == k,
                forall|j: int| 0 <= j < n ==> match #[trigger] self.active_paths@[j] {
                    Some((_, Some(pt))) => path_ok(pt.spec_path()),
                    _ => true,
                },
                forall|j: int| 0 <= j < k ==> (#[trigger] r@[j]).0 as int == availability_of(self.active_paths@[j], self.time as int, state.robot_states@[j]).0
                    && r@[j].1 == availability_of(self.active_paths@[j], self.time as int, state.robot_states@[j]).1,
            decreases n - k,
        {
            let entry = match &self.active_paths[k] {
                Some((_, Some(pt))) => {
                    let path = pt.path();
                    (path.end_time() + 2, path.nodes[path.nodes.len() - 1])
                },
                _ => match state.robot_states[k].vertex {
                    Some(v) => (self.time, v),
                    None => (usize::MAX, Vertex { x: 0, y: 0 }),
                },
            };
            r.push(entry);
            k = k + 1;
        }
        r
    }

    /// The requests of `state` that no robot has taken up yet.
    fn unassigned_requests(&self, state: &State) -> (r: Vec<Option<Request>>)
        ensures
            r@ == unassigned(state.requests@, self.active_paths@),
    {
        let mut r: Vec<Option<Request>> = Vec::new();
        let mut id: usize = 0;
        while id < state.requests.len()
            invariant
                id <= state.requests@.len(),
                r@.len() == id,
                forall|j: int| 0 <= j < id ==> #[trigger] r@[j] == unassigned(state.requests@, self.active_paths@)[j],
            decreases state.requests@.len() - id,
        {
            let mut active = false;
            let mut k: usize = 0;
            while k < self.active_paths.len()
                invariant
                    k <= self.active_paths@.len(),
                    active == exists|q: int| 0 <= q < k && task_request(#[trigger] self.active_paths@[q]) == Some(id),
                decreases self.active_paths@.len() - k,
            {
                match &self.active_paths[k] {
                    Some((p, _)) => {
                        if *p == id {
                            active = true;
                        }
                    },
                    None => {},
                }
                k = k + 1;
            }
            if active {
                r.push(None);
            } else {
                r.push(state.requests[id]);
            }
            id = id + 1;
        }
        assert(r@ =~= unassigned(state.requests@, self.active_paths@));
        r
    }

    /// Reassigns the requests no robot has taken up, given when and where
    /// each robot is next free.
    fn update_assignment(&mut self, state: &State)
        requires
            forall|k: int| 0 <= k < old(self).active_paths@.len() ==> match #[trigger] old(self).active_paths@[k] {
                Some((_, Some(pt))) => path_ok(pt.spec_path()),
                _ => true,
            },
            state.robot_states@.len() == old(self).active_paths@.len(),
        ensures
            final(self).assignment@.len() == old(self).active_paths@.len(),
            final(self).time_graph == old(self).time_graph,
            final(self).active_paths == old(self).active_paths,
            final(self).time == old(self).time,
            old(self).active_paths@.len() > 0 ==> forall|k: int| 0 <= k < final(self).assignment@.len() ==> (#[trigger] final(self).assignment@[k])@
                == greedy(
                    Seq::new(old(self).active_paths@.len(), |j: int| availability_of(old(self).active_paths@[j], old(self).time as int, state.robot_states@[j]).0),
                    unassigned(state.requests@, old(self).active_paths@),
                    state.requests@.len() as int,
                ).1[k],
    {
        let requests = self.unassigned_requests(state);
        let availability = self.get_earliest_availability(state);
        self.assignment = self.assignment_algorithm.calculate_assignment(&requests, &availability);
        proof {
            let times = Seq::new(self.active_paths@.len(), |j: int| availability_of(self.active_paths@[j], self.time as int, state.robot_states@[j]).0);
            assert(availability@.map_values(|a: (usize, Vertex)| a.0 as int) =~= times);
        }
    }

    /// Did the latest state bring requests that the one before did not
    /// have? The first step always counts as new.
    pub fn contains_new_requests(&self, history: &History) -> (r: bool)
        requires
            history.states@.len() >= 1,
        ensures
            r == brings_new_requests(history),
    {
        let t = history.time();
        if t == 1 {
            return true;
        }
        let last = history.last_state();
        let before = &history.states[t - 2];
        let mut id: usize = 0;
        while id < last.requests.len()
            invariant
                history.states@.len() >= 2,
                *last == history.states@.last(),
                *before == history.states@[history.states@.len() - 2],
                id <= last.requests@.len(),
                forall|j: int| 0 <= j < id ==> !((#[trigger] last.requests@[j]) is Some && (j >= before.requests@.len()
                    || before.requests@[j] is None)),
            decreases last.requests@.len() - id,
        {
            if last.requests[id].is_some() && (id >= before.requests.len() || before.requests[id].is_none()) {
                assert(history.states@.last().requests@[id as int] is Some);
                return true;
            }
            id = id + 1;
        }
        false
    }

    /// Plans one step and returns its instructions: drops expired layers,
    /// reassigns on new requests, advances every robot's task, then emits
    /// each robot's instruction in id order.
    pub fn next_step<P: Plan>(&mut self, plan: &P, history: &History) -> (r: Instructions)
        requires
            old(self).wf(plan),
            history.states@.len() >= 1,
            history.states@.last().robot_states@.len() == old(self).nr_robots(),
            old(self).spec_time() + 2 < usize::MAX,
        ensures
            final(self).wf(plan),
            final(self).nr_robots() == old(self).nr_robots(),
            final(self).spec_time() == old(self).spec_time() + 1,
            !brings_new_requests(history) ==> forall|k: int| 0 <= k < old(self).nr_robots() ==> task_kept(
                #[trigger] old(self).task(k),
                old(self).queues()[k]@.len() == 0,
                old(self).spec_time(),
                final(self).task(k),
            ),
            batch_of(&r) == batch_for(
                final(self).tasks(),
                final(self).queues(),
                old(self).spec_time(),
                history.states@.last().robot_states@,
                old(self).nr_robots() as int,
            ),
    {
        self.time_graph.clean_front(plan, self.time);
        let last = history.last_state();
        if self.contains_new_requests(history) {
            self.update_assignment(last);
        }
        self.update_paths(plan, last);
        let mut instructions = Instructions::empty();
        let n = self.active_paths.len();
        let mut robot: usize = 0;
        while robot < n
            invariant
                self.wf(plan),
                n == self.active_paths@.len(),
                last.robot_states@.len() == n,
                self.time + 2 < usize::MAX,
                robot <= n,
                batch_of(&instructions) == batch_for(self.active_paths@, self.assignment@, self.time as int, last.robot_states@, robot as int),
            decreases n - robot,
        {
            self.get_robot_instruction(robot, last.robot_states[robot], &mut instructions);
            robot = robot + 1;
        }
        self.time = self.time + 1;
        instructions
    }

}

} // verus!
