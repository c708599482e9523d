//! Layered reservations of free vertices over discrete time, with
//! earliest-arrival path search.
use crate::grid::{grid_at, grid_filled, grid_set, grid_shaped, Grid};
use vstd::set_lib::lemma_len_subset;
use crate::plan::{in_rect, lemma_rect_fits_sides, manhattan, rect_fits, rect_neighbors, rect_vertices, Plan, Vertex};
use crate::simulation::contains_vertex;
use vstd::prelude::*;

verus! {

broadcast use crate::seq_facts::lemma_push_contains;

/// A timed walk: `nodes[k]` is occupied at time `start_time + k`.
#[derive(Clone, Debug, PartialEq, Eq)]
pub struct Path {
    pub start_time: usize,
    pub nodes: Vec<Vertex>,
}

impl Path {
    /// Consecutive nodes are equal or adjacent.
    pub open spec fn is_walk(&self) -> bool {
        forall|k: int| 0 < k < self.nodes@.len() ==> manhattan(self.nodes@[k - 1], #[trigger] self.nodes@[k]) <= 1
    }

    pub open spec fn spec_end_time(&self) -> int {
        self.start_time + self.nodes@.len() - 1
    }

    /// Number of nodes.
    pub fn length(&self) -> (r: usize)
        ensures
            r == self.nodes@.len(),
    {
        self.nodes.len()
    }

    /// Time at which the last node is occupied.
    pub fn end_time(&self) -> (r: usize)
        requires
            self.nodes@.len() >= 1,
            self.start_time + self.nodes@.len() - 1 <= usize::MAX,
        ensures
            r == self.spec_end_time(),
    {
        self.start_time + (self.nodes.len() - 1)
    }
}

/// Does a path starting at `start` through `nodes` block `v` at time `t`?
/// A node blocks its vertex one step before, at, and one step after the time
/// it is occupied.
pub open spec fn path_reserves(start: int, nodes: Seq<Vertex>, t: int, v: Vertex) -> bool {
    exists|k: int| 0 <= k < nodes.len() && #[trigger] nodes[k] == v && start + k - 1 <= t <= start + k + 1
}

/// Reserving one more node of a path adds exactly that node's window.
proof fn lemma_reserves_step(start: int, nodes: Seq<Vertex>, k: int, t: int, v: Vertex)
    requires
        0 <= k < nodes.len(),
    ensures
        path_reserves(start, nodes.take(k + 1), t, v) == (path_reserves(start, nodes.take(k), t, v) || (
        nodes[k] == v && start + k - 1 <= t <= start + k + 1)),
{
    if path_reserves(start, nodes.take(k + 1), t, v) {
        let j = choose|j: int|
            0 <= j < nodes.take(k + 1).len() && #[trigger] nodes.take(k + 1)[j] == v && start + j - 1 <= t <= start
                + j + 1;
        if j < k {
            assert(nodes.take(k)[j] == v);
        }
    }
    if path_reserves(start, nodes.take(k), t, v) {
        let j = choose|j: int|
            0 <= j < nodes.take(k).len() && #[trigger] nodes.take(k)[j] == v && start + j - 1 <= t <= start + j + 1;
        assert(nodes.take(k + 1)[j] == v);
    }
    if nodes[k] == v && start + k - 1 <= t <= start + k + 1 {
        assert(nodes.take(k + 1)[k] == v);
    }
}

/// Sides that index a machine array.
pub open spec fn x_size_ok(x_size: u64, y_size: u64) -> bool {
    x_size <= usize::MAX && y_size <= usize::MAX
}

/// Reservation layers: layer `i` holds the vertices that are still free at
/// time `earliest_time + i`.
pub struct TimeGraph {
    layers: Vec<Grid<bool>>,
    x_size: u64,
    y_size: u64,
    earliest_time: usize,
}

/// A layer in which exactly the vertices of `plan` are free.
pub fn fresh_layer<P: Plan>(plan: &P) -> (g: Grid<bool>)
    requires
        plan.wf(),
    ensures
        grid_shaped(g, plan.spec_x_size(), plan.spec_y_size()),
        forall|v: Vertex|
            in_rect(plan.spec_x_size(), plan.spec_y_size(), v) ==> grid_at(g, v) == plan.spec_contains(v),
{
    let x_size = plan.x_size();
    let y_size = plan.y_size();
    let mut g: Grid<bool> = Vec::new();
    let mut x: u64 = 0;
    while x < x_size
        invariant
            plan.wf(),
            x_size == plan.spec_x_size(),
            y_size == plan.spec_y_size(),
            x <= x_size,
            g@.len() == x,
            forall|i: int| 0 <= i < x ==> (#[trigger] g@[i])@.len() == y_size,
            forall|v: Vertex| v.x < x && v.y < y_size ==> grid_at(g, v) == plan.spec_contains(v),
        decreases x_size - x,
    {
        let mut col: Vec<bool> = Vec::new();
        let mut y: u64 = 0;
        while y < y_size
            invariant
                plan.wf(),
                y <= y_size,
                col@.len() == y,
                forall|j: int| 0 <= j < y ==> col@[j] == plan.spec_contains(Vertex { x, y: j as u64 }),
            decreases y_size - y,
        {
            col.push(plan.contains(&Vertex { x, y }));
            y = y + 1;
        }
        let ghost before = g;
        g.push(col);
        assert forall|v: Vertex| v.x < x + 1 && v.y < y_size implies grid_at(g, v)
            == plan.spec_contains(v) by {
            if v.x < x {
                assert(g@[v.x as int] == before@[v.x as int]);
                assert(grid_at(before, v) == plan.spec_contains(v));
            } else {
                assert(col@[v.y as int] == plan.spec_contains(Vertex { x, y: v.y }));
            }
        }
        x = x + 1;
    }
    g
}

impl TimeGraph {
    /// Layers are shaped for the rectangle and times stay representable.
    pub closed spec fn wf(&self) -> bool {
        &&& rect_fits(self.x_size, self.y_size)
        &&& self.earliest_time + self.layers@.len() <= usize::MAX
        &&& forall|i: int| 0 <= i < self.layers@.len() ==> grid_shaped(#[trigger] self.layers@[i], self.x_size, self.y_size)
    }

    /// The graph belongs to `plan`: same rectangle, and only vertices of the
    /// plan are ever free.
    pub closed spec fn fits<P: Plan>(&self, plan: &P) -> bool {
        &&& self.wf()
        &&& plan.wf()
        &&& self.x_size == plan.spec_x_size()
        &&& self.y_size == plan.spec_y_size()
        &&& forall|t: int, v: Vertex| #[trigger] self.is_free_at(t, v) ==> plan.spec_contains(v)
    }

    /// Time of the first layer.
    pub closed spec fn earliest(&self) -> int {
        self.earliest_time as int
    }

    /// One past the time of the last layer.
    pub closed spec fn horizon(&self) -> int {
        self.earliest_time + self.layers@.len()
    }

    /// Is `v` free at time `t`? Times outside the layers hold nothing.
    pub closed spec fn is_free_at(&self, t: int, v: Vertex) -> bool {
        &&& self.earliest_time <= t < self.earliest_time + self.layers@.len()
        &&& in_rect(self.x_size, self.y_size, v)
        &&& grid_at(self.layers@[t - self.earliest_time], v)
    }

    /// Both graphs hold the same layers at the same times.
    pub open spec fn same_model(&self, o: &TimeGraph) -> bool {
        &&& self.earliest() == o.earliest()
        &&& self.horizon() == o.horizon()
        &&& forall|t: int, v: Vertex| #[trigger] self.is_free_at(t, v) == o.is_free_at(t, v)
    }

    /// `after` is `before` once `path` has been reserved.
    pub open spec fn removal_result(before: &TimeGraph, path: &Path, after: &TimeGraph) -> bool {
        &&& after.earliest() == before.earliest()
        &&& after.horizon() == before.horizon()
        &&& forall|t: int, v: Vertex| #[trigger] after.is_free_at(t, v) == (before.is_free_at(t, v)
            && !path_reserves(path.start_time as int, path.nodes@, t, v))
    }

    /// `after` is `before` with the layers before `new_earliest` dropped; it
    /// holds no layer when all of them were dropped.
    pub open spec fn clean_front_result(before: &TimeGraph, new_earliest: int, after: &TimeGraph) -> bool {
        &&& after.earliest() == new_earliest
        &&& after.horizon() == if before.horizon() > new_earliest {
            before.horizon()
        } else {
            new_earliest
        }
        &&& forall|t: int, v: Vertex| #[trigger] after.is_free_at(t, v) == (new_earliest <= t && before.is_free_at(t, v))
    }

    /// Only plan vertices are free, also in appended layers.
    pub proof fn lemma_ext_free_contains<P: Plan>(&self, plan: &P, t: int, v: Vertex)
        requires
            self.fits(plan),
            ext_free(self, plan, t, v),
        ensures
            plan.spec_contains(v),
    {
    }

    /// In a graph extended from `g0`, a layer that exists reads as `g0`
    /// extended with fresh layers.
    pub proof fn lemma_ext_free_now<P: Plan>(&self, g0: &TimeGraph, plan: &P, t: int, v: Vertex)
        requires
            self.extends(g0, plan),
            t < self.horizon(),
        ensures
            self.is_free_at(t, v) == ext_free(g0, plan, t, v),
    {
        reveal(TimeGraph::extends);
    }

    /// A free vertex lies within the layers, which end by `usize::MAX`.
    pub proof fn lemma_free_in_range(&self, t: int, v: Vertex)
        requires
            self.wf(),
            self.is_free_at(t, v),
        ensures
            self.earliest() <= t < self.horizon(),
            self.horizon() <= usize::MAX,
    {
    }

    pub proof fn lemma_horizon_fits(&self)
        requires
            self.wf(),
        ensures
            self.horizon() <= usize::MAX,
    {
    }

    pub proof fn lemma_fits_wf<P: Plan>(&self, plan: &P)
        requires
            self.fits(plan),
        ensures
            self.wf(),
            plan.wf(),
    {
    }

    proof fn lemma_outside_not_free(&self, t: int, v: Vertex)
        ensures
            (t < self.earliest() || t >= self.horizon()) ==> !self.is_free_at(t, v),
    {
    }

    /// A graph for `plan` with `initial_capacity + 1` layers from time zero,
    /// every vertex free.
    pub fn from_plan<P: Plan>(plan: &P, initial_capacity: usize) -> (g: TimeGraph)
        requires
            plan.wf(),
            initial_capacity < usize::MAX,
        ensures
            g.fits(plan),
            g.earliest() == 0,
            g.horizon() == initial_capacity + 1,
            forall|t: int, v: Vertex|
                0 <= t <= initial_capacity ==> (#[trigger] g.is_free_at(t, v) == plan.spec_contains(v)),
    {
        proof {
            plan.lemma_shape(Vertex { x: 0, y: 0 });
        }
        let mut layers: Vec<Grid<bool>> = Vec::new();
        let mut i: usize = 0;
        while i <= initial_capacity
            invariant
                plan.wf(),
                initial_capacity < usize::MAX,
                i <= initial_capacity + 1,
                layers@.len() == i,
                forall|k: int|
                    0 <= k < i ==> grid_shaped(#[trigger] layers@[k], plan.spec_x_size(), plan.spec_y_size()),
                forall|k: int, v: Vertex|
                    0 <= k < i && in_rect(plan.spec_x_size(), plan.spec_y_size(), v) ==> #[trigger] grid_at(
                        layers@[k],
                        v,
                    ) == plan.spec_contains(v),
            decreases initial_capacity + 1 - i,
        {
            let layer = fresh_layer(plan);
            layers.push(layer);
            i = i + 1;
        }
        let g = TimeGraph { layers, x_size: plan.x_size(), y_size: plan.y_size(), earliest_time: 0 };
        assert forall|t: int, v: Vertex| #[trigger] g.is_free_at(t, v) implies plan.spec_contains(v) by {
            assert(grid_at(g.layers@[t], v) == plan.spec_contains(v));
        }
        assert forall|t: int, v: Vertex| 0 <= t <= initial_capacity implies (#[trigger] g.is_free_at(t, v) == plan.spec_contains(v)) by {
            plan.lemma_shape(v);
            if in_rect(plan.spec_x_size(), plan.spec_y_size(), v) {
                assert(grid_at(g.layers@[t], v) == plan.spec_contains(v));
            }
        }
        g
    }

    /// Time of the first layer.
    pub fn earliest_time(&self) -> (r: usize)
        ensures
            r == self.earliest(),
    {
        self.earliest_time
    }

    /// Number of layers.
    pub fn capacity(&self) -> (r: usize)
        ensures
            r == self.horizon() - self.earliest(),
    {
        self.layers.len()
    }

    /// Is `v` free at time `time`?
    pub fn is_free(&self, time: usize, v: Vertex) -> (r: bool)
        requires
            self.wf(),
        ensures
            r == self.is_free_at(time as int, v),
    {
        if time < self.earliest_time || time - self.earliest_time >= self.layers.len() {
            return false;
        }
        if v.x >= self.x_size || v.y >= self.y_size {
            return false;
        }
        let i = time - self.earliest_time;
        let layer = &self.layers[i];
        assert(grid_shaped(self.layers@[i as int], self.x_size, self.y_size));
        proof {
            lemma_rect_fits_sides(self.x_size, self.y_size);
        }
        let x = v.x as usize;
        let col = &layer[x];
        col[v.y as usize]
    }

    /// Marks `v` taken in layer `i`.
    fn block(&mut self, i: usize, v: Vertex)
        requires
            old(self).wf(),
            i < old(self).layers@.len(),
            in_rect(old(self).x_size, old(self).y_size, v),
        ensures
            final(self).wf(),
            final(self).x_size == old(self).x_size,
            final(self).y_size == old(self).y_size,
            final(self).earliest_time == old(self).earliest_time,
            final(self).layers@.len() == old(self).layers@.len(),
            forall|t: int, w: Vertex| #[trigger] final(self).is_free_at(t, w) == (old(self).is_free_at(t, w)
                && !(t == old(self).earliest_time + i && w == v)),
    {
        let ghost before = *self;
        let mut layer = Vec::new();
        std::mem::swap(&mut layer, &mut self.layers[i]);
        assert(grid_shaped(layer, before.x_size, before.y_size));
        grid_set(&mut layer, v, false);
        std::mem::swap(&mut layer, &mut self.layers[i]);
        assert forall|k: int| 0 <= k < self.layers@.len() && k != i implies self.layers@[k] == before.layers@[k] by {}
        assert forall|k: int| 0 <= k < self.layers@.len() implies grid_shaped(#[trigger] self.layers@[k], self.x_size, self.y_size) by {
            if k != i {
                assert(self.layers@[k] == before.layers@[k]);
            }
        }
        assert forall|t: int, w: Vertex| #[trigger] self.is_free_at(t, w) == (before.is_free_at(t, w)
            && !(t == before.earliest_time + i && w == v)) by {
            if before.earliest_time <= t < before.earliest_time + before.layers@.len() && t != before.earliest_time + i {
                assert(self.layers@[t - self.earliest_time] == before.layers@[t - before.earliest_time]);
            }
        }
    }
    /// Both graphs cover the same rectangle.
    pub closed spec fn same_shape(&self, o: &TimeGraph) -> bool {
        self.x_size == o.x_size && self.y_size == o.y_size
    }

    /// A graph with fewer free vertices than one that fits `plan` fits it too.
    pub proof fn lemma_fits_fewer_free<P: Plan>(a: &TimeGraph, b: &TimeGraph, plan: &P)
        requires
            a.fits(plan),
            b.wf(),
            b.same_shape(a),
            forall|t: int, v: Vertex| #[trigger] b.is_free_at(t, v) ==> a.is_free_at(t, v),
        ensures
            b.fits(plan),
    {
        assert forall|t: int, v: Vertex| #[trigger] b.is_free_at(t, v) implies plan.spec_contains(v) by {
            assert(a.is_free_at(t, v));
        }
    }

    /// Reserves `path`: each node's vertex is taken in the layers of the step
    /// before, the step of, and the step after its time, where those exist.
    pub fn remove_path(&mut self, path: &Path)
        requires
            old(self).wf(),
            path.start_time >= old(self).earliest(),
        ensures
            final(self).wf(),
            final(self).same_shape(old(self)),
            TimeGraph::removal_result(old(self), path, final(self)),
    {
        let ghost g0 = *self;
        let start_index = path.start_time - self.earliest_time;
        let n = path.nodes.len();
        let mut k: usize = 0;
        while k < n
            invariant
                self.wf(),
                self.same_shape(&g0),
                self.earliest_time == g0.earliest_time,
                self.layers@.len() == g0.layers@.len(),
                start_index == path.start_time - g0.earliest_time,
                n == path.nodes@.len(),
                k <= n,
                forall|t: int, v: Vertex| #[trigger] self.is_free_at(t, v) == (g0.is_free_at(t, v)
                    && !path_reserves(path.start_time as int, path.nodes@.take(k as int), t, v)),
            decreases n - k,
        {
            let node = path.nodes[k];
            let len = self.layers.len();
            let ghost g1 = *self;
            if start_index <= len && k <= len - start_index && node.x < self.x_size && node.y
                < self.y_size {
                let ti = start_index + k;
                if ti >= 1 {
                    self.block(ti - 1, node);
                }
                if ti < len {
                    self.block(ti, node);
                    if ti + 1 < len {
                        self.block(ti + 1, node);
                    }
                }
            }
            assert forall|t: int, v: Vertex| #[trigger] self.is_free_at(t, v) == (g0.is_free_at(t, v)
                && !path_reserves(path.start_time as int, path.nodes@.take(k + 1), t, v)) by {
                lemma_reserves_step(path.start_time as int, path.nodes@, k as int, t, v);
                assert(g1.is_free_at(t, v) == (g0.is_free_at(t, v)
                    && !path_reserves(path.start_time as int, path.nodes@.take(k as int), t, v)));
            }
            k = k + 1;
        }
        assert(path.nodes@.take(n as int) =~= path.nodes@);
    }

    /// Drops the layers before `new_earliest`, all of them if they end
    /// before it; the capacity shrinks by the number dropped.
    pub fn clean_front<P: Plan>(&mut self, plan: &P, new_earliest: usize)
        requires
            old(self).fits(plan),
            new_earliest >= old(self).earliest(),
        ensures
            final(self).fits(plan),
            TimeGraph::clean_front_result(old(self), new_earliest as int, final(self)),
    {
        let ghost g0 = *self;
        let to_remove = new_earliest - self.earliest_time;
        if to_remove < self.layers.len() {
            let mut i: usize = 0;
            while i < to_remove
                invariant
                    g0.wf(),
                    i <= to_remove,
                    to_remove < g0.layers@.len(),
                    self.x_size == g0.x_size,
                    self.y_size == g0.y_size,
                    self.earliest_time == g0.earliest_time,
                    self.layers@ == g0.layers@.skip(i as int),
                decreases to_remove - i,
            {
                self.layers.remove(0);
                i = i + 1;
            }
            self.earliest_time = new_earliest;
            assert forall|k: int| 0 <= k < self.layers@.len() implies grid_shaped(#[trigger] self.layers@[k], self.x_size, self.y_size) by {
                assert(self.layers@[k] == g0.layers@[k + to_remove]);
            }
            assert forall|t: int, v: Vertex| #[trigger] self.is_free_at(t, v) == (new_earliest <= t
                && g0.is_free_at(t, v)) by {
                if new_earliest <= t < self.earliest_time + self.layers@.len() {
                    assert(self.layers@[t - new_earliest] == g0.layers@[t - g0.earliest_time]);
                }
            }
        } else {
            self.layers = Vec::new();
            self.earliest_time = new_earliest;
            assert forall|t: int, v: Vertex| #[trigger] self.is_free_at(t, v) == (new_earliest <= t
                && g0.is_free_at(t, v)) by {
            }
        }
        assert forall|t: int, v: Vertex| #[trigger] self.is_free_at(t, v) implies plan.spec_contains(v) by {
            assert(g0.is_free_at(t, v));
        }
    }

    /// Appends `extra_capacity` fresh layers of `plan`.
    pub fn extend<P: Plan>(&mut self, plan: &P, extra_capacity: usize)
        requires
            old(self).fits(plan),
            old(self).horizon() + extra_capacity <= usize::MAX,
        ensures
            final(self).fits(plan),
            final(self).earliest() == old(self).earliest(),
            final(self).horizon() == old(self).horizon() + extra_capacity,
            forall|t: int, v: Vertex|
                t < old(self).horizon() ==> #[trigger] final(self).is_free_at(t, v) == old(self).is_free_at(t, v),
            forall|t: int, v: Vertex|
                old(self).horizon() <= t < final(self).horizon() ==> #[trigger] final(self).is_free_at(t, v)
                    == plan.spec_contains(v),
    {
        let ghost g0 = *self;
        let mut i: usize = 0;
        while i < extra_capacity
            invariant
                g0.fits(plan),
                g0.horizon() + extra_capacity <= usize::MAX,
                i <= extra_capacity,
                self.x_size == g0.x_size,
                self.y_size == g0.y_size,
                self.earliest_time == g0.earliest_time,
                self.layers@.len() == g0.layers@.len() + i,
                forall|k: int| 0 <= k < g0.layers@.len() ==> #[trigger] self.layers@[k] == g0.layers@[k],
                forall|k: int|
                    0 <= k < self.layers@.len() ==> grid_shaped(#[trigger] self.layers@[k], self.x_size, self.y_size),
                forall|k: int, v: Vertex|
                    g0.layers@.len() <= k < self.layers@.len() && in_rect(self.x_size, self.y_size, v)
                        ==> #[trigger] grid_at(self.layers@[k], v) == plan.spec_contains(v),
            decreases extra_capacity - i,
        {
            let layer = fresh_layer(plan);
            self.layers.push(layer);
            i = i + 1;
        }
        assert forall|t: int, v: Vertex| #[trigger] self.is_free_at(t, v) == (if t < g0.horizon() {
            g0.is_free_at(t, v)
        } else {
            t < self.horizon() && plan.spec_contains(v)
        }) by {
            plan.lemma_shape(v);
            if self.earliest_time <= t < g0.horizon() {
                assert(self.layers@[t - self.earliest_time] == g0.layers@[t - self.earliest_time]);
            }
            if g0.horizon() <= t < self.horizon() && in_rect(self.x_size, self.y_size, v) {
                assert(grid_at(self.layers@[t - self.earliest_time], v) == plan.spec_contains(v));
            }
        }
    }
}


/// Search bookkeeping for one node of the time-expanded graph.
#[derive(Clone, Copy)]
struct Mark {
    reached: bool,
    visited: bool,
    prev: Vertex,
}

/// Manhattan distances within a fitting rectangle are machine integers.
proof fn lemma_rect_distance(x_size: u64, y_size: u64, a: Vertex, b: Vertex)
    requires
        rect_fits(x_size, y_size),
        in_rect(x_size, y_size, a),
        in_rect(x_size, y_size, b),
    ensures
        manhattan(a, b) <= u64::MAX,
{
    assert((x_size - 1) * (y_size - 1) >= 0) by (nonlinear_arith)
        requires
            x_size >= 1,
            y_size >= 1,
    ;
    assert(x_size as int * y_size as int == (x_size - 1) * (y_size - 1) + x_size + y_size - 1) by (nonlinear_arith);
}

impl TimeGraph {
    /// `self` is `g0` with fresh layers of `plan` possibly appended.
    #[verifier::opaque]
    pub closed spec fn extends<P: Plan>(&self, g0: &TimeGraph, plan: &P) -> bool {
        &&& self.fits(plan)
        &&& self.same_shape(g0)
        &&& self.earliest_time == g0.earliest_time
        &&& self.horizon() >= g0.horizon()
        &&& forall|t: int, v: Vertex|
            t < g0.horizon() ==> #[trigger] self.is_free_at(t, v) == g0.is_free_at(t, v)
        &&& forall|t: int, v: Vertex|
            g0.horizon() <= t < self.horizon() ==> #[trigger] self.is_free_at(t, v) == plan.spec_contains(v)
    }

    proof fn lemma_extends_trans<P: Plan>(a: &TimeGraph, b: &TimeGraph, c: &TimeGraph, plan: &P)
        requires
            b.extends(a, plan),
            c.extends(b, plan),
        ensures
            c.extends(a, plan),
    {
        reveal(TimeGraph::extends);
        assert forall|t: int, v: Vertex| a.horizon() <= t < c.horizon() implies #[trigger] c.is_free_at(t, v) == plan.spec_contains(v) by {
            if t < b.horizon() {
                assert(b.is_free_at(t, v) == plan.spec_contains(v));
            }
        }
        assert forall|t: int, v: Vertex| t < a.horizon() implies #[trigger] c.is_free_at(t, v) == a.is_free_at(t, v) by {
            assert(b.is_free_at(t, v) == a.is_free_at(t, v));
        }
    }

    proof fn lemma_extends_intro<P: Plan>(a: &TimeGraph, b: &TimeGraph, plan: &P)
        requires
            a.fits(plan),
            b.fits(plan),
            b.earliest() == a.earliest(),
            b.horizon() >= a.horizon(),
            forall|t: int, v: Vertex|
                t < a.horizon() ==> #[trigger] b.is_free_at(t, v) == a.is_free_at(t, v),
            forall|t: int, v: Vertex|
                a.horizon() <= t < b.horizon() ==> #[trigger] b.is_free_at(t, v) == plan.spec_contains(v),
        ensures
            b.extends(a, plan),
    {
        reveal(TimeGraph::extends);
    }

    pub proof fn lemma_extends_refl<P: Plan>(a: &TimeGraph, plan: &P)
        requires
            a.fits(plan),
        ensures
            a.extends(a, plan),
    {
        reveal(TimeGraph::extends);
    }

    /// What `extends` states.
    pub proof fn lemma_extends_facts<P: Plan>(&self, g0: &TimeGraph, plan: &P)
        requires
            self.extends(g0, plan),
        ensures
            self.fits(plan),
            self.same_shape(g0),
            self.earliest() == g0.earliest(),
            self.horizon() >= g0.horizon(),
            forall|t: int, v: Vertex|
                t < g0.horizon() ==> #[trigger] self.is_free_at(t, v) == g0.is_free_at(t, v),
            forall|t: int, v: Vertex|
                g0.horizon() <= t < self.horizon() ==> #[trigger] self.is_free_at(t, v) == plan.spec_contains(v),
    {
        reveal(TimeGraph::extends);
    }

    /// The search mark of cell `u` at time `t`: reached when `u` is free
    /// then, outside `avoid`, and on or next to a reached cell of `prev`,
    /// which it records.
    fn cell_step(&self, prev: &Grid<Mark>, t: usize, avoid: &Vec<Vertex>, u: Vertex) -> (m: Mark)
        requires
            self.wf(),
            grid_shaped(*prev, self.x_size, self.y_size),
            in_rect(self.x_size, self.y_size, u),
        ensures
            m.reached == (self.is_free_at(t as int, u) && !avoid@.contains(u) && exists|w: Vertex|
                in_rect(self.x_size, self.y_size, w) && grid_at(*prev, w).reached && #[trigger] manhattan(w, u) <= 1),
            m.reached ==> in_rect(self.x_size, self.y_size, m.prev) && grid_at(*prev, m.prev).reached && manhattan(m.prev, u) <= 1,
    {
        proof {
            lemma_rect_fits_sides(self.x_size, self.y_size);
        }
        assert(x_size_ok(self.x_size, self.y_size));
        if !self.is_free(t, u) || contains_vertex(avoid, u) {
            return Mark { reached: false, visited: false, prev: u };
        }
        let mut cands = rect_neighbors(self.x_size, self.y_size, &u);
        let ghost around = cands@;
        cands.push(u);
        let mut i: usize = 0;
        while i < cands.len()
            invariant
                self.wf(),
                x_size_ok(self.x_size, self.y_size),
                grid_shaped(*prev, self.x_size, self.y_size),
                in_rect(self.x_size, self.y_size, u),
                self.is_free_at(t as int, u),
                !avoid@.contains(u),
                cands@ == around.push(u),
                forall|c: Vertex| #[trigger] around.contains(c) <==> (in_rect(self.x_size, self.y_size, c) && manhattan(u, c) == 1),
                i <= cands@.len(),
                forall|j: int| 0 <= j < i ==> !grid_at(*prev, #[trigger] cands@[j]).reached,
            decreases cands@.len() - i,
        {
            let c = cands[i];
            assert(cands@.contains(c));
            assert(in_rect(self.x_size, self.y_size, c)) by {
                if c != u {
                    assert(around.contains(c)) by {
                        let j = choose|j: int| 0 <= j < cands@.len() && cands@[j] == c;
                        if j < around.len() {
                            assert(around[j] == c);
                        }
                    }
                }
            }
            assert(grid_shaped(*prev, self.x_size, self.y_size));
            let col = &prev[c.x as usize];
            if col[c.y as usize].reached {
                proof {
                    if c != u {
                        let j = choose|j: int| 0 <= j < cands@.len() && cands@[j] == c;
                        if j < around.len() {
                            assert(around[j] == c);
                            assert(around.contains(c));
                        }
                    }
                    assert(manhattan(c, u) <= 1);
                }
                return Mark { reached: true, visited: false, prev: c };
            }
            i = i + 1;
        }
        assert forall|w: Vertex| !(in_rect(self.x_size, self.y_size, w) && grid_at(*prev, w).reached && #[trigger] manhattan(w, u) <= 1) by {
            if in_rect(self.x_size, self.y_size, w) && grid_at(*prev, w).reached && manhattan(w, u) <= 1 {
                if w == u {
                    assert(cands@[around.len() as int] == u);
                } else {
                    assert(manhattan(u, w) == 1);
                    assert(around.contains(w));
                    let j = choose|j: int| 0 <= j < around.len() && around[j] == w;
                    assert(cands@[j] == w);
                }
            }
        }
        Mark { reached: false, visited: false, prev: u }
    }

    /// The marks of every cell at time `t`, from those of the layer before.
    fn layer_step(&self, prev: &Grid<Mark>, t: usize, avoid: &Vec<Vertex>) -> (next: Grid<Mark>)
        requires
            self.wf(),
            grid_shaped(*prev, self.x_size, self.y_size),
        ensures
            grid_shaped(next, self.x_size, self.y_size),
            forall|u: Vertex| in_rect(self.x_size, self.y_size, u) ==> (#[trigger] grid_at(next, u)).reached == (self.is_free_at(t as int, u)
                && !avoid@.contains(u) && exists|w: Vertex|
                in_rect(self.x_size, self.y_size, w) && grid_at(*prev, w).reached && #[trigger] manhattan(w, u) <= 1),
            forall|u: Vertex| in_rect(self.x_size, self.y_size, u) && (#[trigger] grid_at(next, u)).reached ==> in_rect(
                self.x_size,
                self.y_size,
                grid_at(next, u).prev,
            ) && grid_at(*prev, grid_at(next, u).prev).reached && manhattan(grid_at(next, u).prev, u) <= 1,
    {
        let mut g: Grid<Mark> = Vec::new();
        let mut x: u64 = 0;
        while x < self.x_size
            invariant
                self.wf(),
                grid_shaped(*prev, self.x_size, self.y_size),
                x <= self.x_size,
                g@.len() == x,
                forall|i: int| 0 <= i < x ==> (#[trigger] g@[i])@.len() == self.y_size,
                forall|u: Vertex| u.x < x && u.y < self.y_size ==> (#[trigger] grid_at(g, u)).reached == (self.is_free_at(t as int, u)
                    && !avoid@.contains(u) && exists|w: Vertex|
                    in_rect(self.x_size, self.y_size, w) && grid_at(*prev, w).reached && #[trigger] manhattan(w, u) <= 1),
                forall|u: Vertex| u.x < x && u.y < self.y_size && (#[trigger] grid_at(g, u)).reached ==> in_rect(
                    self.x_size,
                    self.y_size,
                    grid_at(g, u).prev,
                ) && grid_at(*prev, grid_at(g, u).prev).reached && manhattan(grid_at(g, u).prev, u) <= 1,
            decreases self.x_size - x,
        {
            let mut col: Vec<Mark> = Vec::new();
            let mut y: u64 = 0;
            while y < self.y_size
                invariant
                    self.wf(),
                    grid_shaped(*prev, self.x_size, self.y_size),
                    x < self.x_size,
                    y <= self.y_size,
                    col@.len() == y,
                    forall|j: int| 0 <= j < y ==> (#[trigger] col@[j]).reached == (self.is_free_at(t as int, Vertex { x, y: j as u64 })
                        && !avoid@.contains(Vertex { x, y: j as u64 }) && exists|w: Vertex|
                        in_rect(self.x_size, self.y_size, w) && grid_at(*prev, w).reached && #[trigger] manhattan(w, Vertex { x, y: j as u64 }) <= 1),
                    forall|j: int| 0 <= j < y && (#[trigger] col@[j]).reached ==> in_rect(self.x_size, self.y_size, col@[j].prev)
                        && grid_at(*prev, col@[j].prev).reached && manhattan(col@[j].prev, Vertex { x, y: j as u64 }) <= 1,
                decreases self.y_size - y,
            {
                let m = self.cell_step(prev, t, avoid, Vertex { x, y });
                col.push(m);
                y = y + 1;
            }
            let ghost before = g;
            g.push(col);
            assert forall|u: Vertex| u.x < x + 1 && u.y < self.y_size implies (#[trigger] grid_at(g, u)).reached == (self.is_free_at(t as int, u)
                && !avoid@.contains(u) && exists|w: Vertex|
                in_rect(self.x_size, self.y_size, w) && grid_at(*prev, w).reached && #[trigger] manhattan(w, u) <= 1) by {
                if u.x < x {
                    assert(g@[u.x as int] == before@[u.x as int]);
                    assert(grid_at(g, u) == grid_at(before, u));
                } else {
                    assert(u == Vertex { x, y: (u.y as int) as u64 });
                    assert(grid_at(g, u) == col@[u.y as int]);
                }
            }
            assert forall|u: Vertex| u.x < x + 1 && u.y < self.y_size && (#[trigger] grid_at(g, u)).reached implies in_rect(
                self.x_size,
                self.y_size,
                grid_at(g, u).prev,
            ) && grid_at(*prev, grid_at(g, u).prev).reached && manhattan(grid_at(g, u).prev, u) <= 1 by {
                if u.x < x {
                    assert(g@[u.x as int] == before@[u.x as int]);
                    assert(grid_at(g, u) == grid_at(before, u));
                } else {
                    assert(u == Vertex { x, y: (u.y as int) as u64 });
                    assert(grid_at(g, u) == col@[u.y as int]);
                }
            }
            x = x + 1;
        }
        g
    }

    /// Is some cell reached in `g`?
    fn any_reached(&self, g: &Grid<Mark>) -> (r: bool)
        requires
            self.wf(),
            grid_shaped(*g, self.x_size, self.y_size),
        ensures
            r == exists|u: Vertex| in_rect(self.x_size, self.y_size, u) && (#[trigger] grid_at(*g, u)).reached,
    {
        proof {
            lemma_rect_fits_sides(self.x_size, self.y_size);
        }
        let mut x: u64 = 0;
        while x < self.x_size
            invariant
                x_size_ok(self.x_size, self.y_size),
                grid_shaped(*g, self.x_size, self.y_size),
                x <= self.x_size,
                forall|u: Vertex| u.x < x && u.y < self.y_size ==> !(#[trigger] grid_at(*g, u)).reached,
            decreases self.x_size - x,
        {
            let mut y: u64 = 0;
            while y < self.y_size
                invariant
                    x_size_ok(self.x_size, self.y_size),
                x_size_ok(self.x_size, self.y_size),
                    grid_shaped(*g, self.x_size, self.y_size),
                    x < self.x_size,
                    y <= self.y_size,
                    forall|u: Vertex| (u.x < x || (u.x == x && u.y < y)) && u.y < self.y_size ==> !(#[trigger] grid_at(*g, u)).reached,
                decreases self.y_size - y,
            {
                assert((g@[x as int])@.len() == self.y_size);
                if g[x as usize][y as usize].reached {
                    assert(grid_at(*g, Vertex { x, y }).reached);
                    return true;
                }
                y = y + 1;
            }
            x = x + 1;
        }
        false
    }

    /// Do `a` and `b` reach the same cells?
    fn same_reached(&self, a: &Grid<Mark>, b: &Grid<Mark>) -> (r: bool)
        requires
            self.wf(),
            grid_shaped(*a, self.x_size, self.y_size),
            grid_shaped(*b, self.x_size, self.y_size),
        ensures
            r == forall|u: Vertex| in_rect(self.x_size, self.y_size, u) ==> (#[trigger] grid_at(*a, u)).reached == grid_at(*b, u).reached,
    {
        proof {
            lemma_rect_fits_sides(self.x_size, self.y_size);
        }
        let mut x: u64 = 0;
        while x < self.x_size
            invariant
                x_size_ok(self.x_size, self.y_size),
                grid_shaped(*a, self.x_size, self.y_size),
                grid_shaped(*b, self.x_size, self.y_size),
                x <= self.x_size,
                forall|u: Vertex| u.x < x && u.y < self.y_size ==> (#[trigger] grid_at(*a, u)).reached == grid_at(*b, u).reached,
            decreases self.x_size - x,
        {
            let mut y: u64 = 0;
            while y < self.y_size
                invariant
                    x_size_ok(self.x_size, self.y_size),
                x_size_ok(self.x_size, self.y_size),
                    grid_shaped(*a, self.x_size, self.y_size),
                    grid_shaped(*b, self.x_size, self.y_size),
                    x < self.x_size,
                    y <= self.y_size,
                    forall|u: Vertex| (u.x < x || (u.x == x && u.y < y)) && u.y < self.y_size ==> (#[trigger] grid_at(*a, u)).reached
                        == grid_at(*b, u).reached,
                decreases self.y_size - y,
            {
                assert((a@[x as int])@.len() == self.y_size);
                assert((b@[x as int])@.len() == self.y_size);
                if a[x as usize][y as usize].reached != b[x as usize][y as usize].reached {
                    assert(grid_at(*a, Vertex { x, y }).reached != grid_at(*b, Vertex { x, y }).reached);
                    return false;
                }
                y = y + 1;
            }
            x = x + 1;
        }
        true
    }

    /// Number of cells of the rectangle.
    pub closed spec fn nr_cells(&self) -> nat {
        Set::new(|u: Vertex| in_rect(self.x_size, self.y_size, u)).len()
    }

    /// Times stay representable while a search from `start` runs.
    pub open spec fn search_room(&self, start: int) -> bool {
        (if start > self.horizon() { start } else { self.horizon() }) + self.nr_cells() + 4 <= usize::MAX
    }

    /// The cells reached in `g`.
    spec fn reached_set(&self, g: Grid<Mark>) -> Set<Vertex> {
        Set::new(|u: Vertex| in_rect(self.x_size, self.y_size, u) && grid_at(g, u).reached)
    }

    /// The layers of a search are exactly the reachable sets, and every
    /// reached cell after the first layer records a reached neighbor.
    #[verifier::opaque]
    spec fn layers_exact<P: Plan>(
        &self,
        g0: &TimeGraph,
        plan: &P,
        marks: Seq<Grid<Mark>>,
        avoid: Seq<Vertex>,
        start: int,
        from: Vertex,
        check: bool,
    ) -> bool {
        &&& forall|j: int| 0 <= j < marks.len() ==> grid_shaped(#[trigger] marks[j], self.x_size, self.y_size)
        &&& forall|j: int, u: Vertex| 0 <= j < marks.len() && in_rect(self.x_size, self.y_size, u) ==> (#[trigger] grid_at(marks[j], u)).reached
            == reachable(g0, plan, avoid, start, from, check, j as nat, u)
        &&& forall|j: int, u: Vertex| 0 < j < marks.len() && in_rect(self.x_size, self.y_size, u) && (#[trigger] grid_at(marks[j], u)).reached
            ==> in_rect(self.x_size, self.y_size, grid_at(marks[j], u).prev) && grid_at(marks[j - 1], grid_at(marks[j], u).prev).reached
            && manhattan(grid_at(marks[j], u).prev, u) <= 1
    }

    proof fn lemma_layers_exact_at<P: Plan>(
        &self,
        g0: &TimeGraph,
        plan: &P,
        marks: Seq<Grid<Mark>>,
        avoid: Seq<Vertex>,
        start: int,
        from: Vertex,
        check: bool,
        j: int,
        u: Vertex,
    )
        requires
            self.layers_exact(g0, plan, marks, avoid, start, from, check),
            0 <= j < marks.len(),
            in_rect(self.x_size, self.y_size, u),
        ensures
            grid_shaped(marks[j], self.x_size, self.y_size),
            grid_at(marks[j], u).reached == reachable(g0, plan, avoid, start, from, check, j as nat, u),
            j > 0 && grid_at(marks[j], u).reached ==> in_rect(self.x_size, self.y_size, grid_at(marks[j], u).prev)
                && grid_at(marks[j - 1], grid_at(marks[j], u).prev).reached && manhattan(grid_at(marks[j], u).prev, u) <= 1,
    {
        reveal(TimeGraph::layers_exact);
    }

    /// The first layer of a search: only `from` is reached.
    fn first_layer<P: Plan>(
        &self,
        gz: Ghost<TimeGraph>,
        plan: &P,
        avz: Ghost<Seq<Vertex>>,
        sz: Ghost<int>,
        from: Vertex,
        check: bool,
    ) -> (g: Grid<Mark>)
        requires
            self.wf(),
            gz@.fits(plan),
            self.same_shape(&gz@),
            plan.spec_contains(from),
            check ==> ext_free(&gz@, plan, sz@, from),
        ensures
            self.layers_exact(&gz@, plan, seq![g], avz@, sz@, from, check),
    {
        let ghost g0 = gz@;
        let ghost avoid = avz@;
        let ghost start = sz@;
        proof {
            plan.lemma_shape(from);
        }
        let mut g = grid_filled(self.x_size, self.y_size, Mark { reached: false, visited: false, prev: from });
        grid_set(&mut g, from, Mark { reached: true, visited: false, prev: from });
        proof {
            reveal(TimeGraph::layers_exact);
            assert(seq![g][0] == g);
        }
        g
    }

    proof fn lemma_push_layer<P: Plan>(
        &self,
        g0: &TimeGraph,
        plan: &P,
        marks: Seq<Grid<Mark>>,
        next: Grid<Mark>,
        avoid: Seq<Vertex>,
        start: int,
        from: Vertex,
        check: bool,
    )
        requires
            g0.fits(plan),
            self.extends(g0, plan),
            self.layers_exact(g0, plan, marks, avoid, start, from, check),
            marks.len() >= 1,
            start + marks.len() < self.horizon(),
            grid_shaped(next, self.x_size, self.y_size),
            forall|u: Vertex| in_rect(self.x_size, self.y_size, u) ==> (#[trigger] grid_at(next, u)).reached == (self.is_free_at(
                start + marks.len(),
                u,
            ) && !avoid.contains(u) && exists|w: Vertex|
                in_rect(self.x_size, self.y_size, w) && grid_at(marks.last(), w).reached && #[trigger] manhattan(w, u) <= 1),
            forall|u: Vertex| in_rect(self.x_size, self.y_size, u) && (#[trigger] grid_at(next, u)).reached ==> in_rect(
                self.x_size,
                self.y_size,
                grid_at(next, u).prev,
            ) && grid_at(marks.last(), grid_at(next, u).prev).reached && manhattan(grid_at(next, u).prev, u) <= 1,
        ensures
            self.layers_exact(g0, plan, marks.push(next), avoid, start, from, check),
    {
        reveal(TimeGraph::layers_exact);
        self.lemma_extends_facts(g0, plan);
        let k = (marks.len() - 1) as nat;
        let ms = marks.push(next);
        assert forall|u: Vertex| in_rect(self.x_size, self.y_size, u) implies (#[trigger] grid_at(next, u)).reached
            == reachable(g0, plan, avoid, start, from, check, (k + 1) as nat, u) by {
            lemma_reach_step(g0, plan, avoid, start, from, check, k, u);
            self.lemma_ext_free_now(g0, plan, start + marks.len(), u);
            if grid_at(next, u).reached {
                let w = choose|w: Vertex| in_rect(self.x_size, self.y_size, w) && grid_at(marks.last(), w).reached && #[trigger] manhattan(w, u) <= 1;
                assert(grid_at(marks[k as int], w).reached);
            }
            if reachable(g0, plan, avoid, start, from, check, (k + 1) as nat, u) {
                let w = choose|w: Vertex| reachable(g0, plan, avoid, start, from, check, k, w) && #[trigger] manhattan(w, u) <= 1;
                lemma_reachable_in_plan(g0, plan, avoid, start, from, check, k, w);
                assert(grid_at(marks[k as int], w).reached);
            }
        }
        assert forall|j: int| 0 <= j < ms.len() implies grid_shaped(#[trigger] ms[j], self.x_size, self.y_size) by {
            if j < marks.len() {
                assert(ms[j] == marks[j]);
            }
        }
        assert forall|j: int, u: Vertex| 0 <= j < ms.len() && in_rect(self.x_size, self.y_size, u) implies (#[trigger] grid_at(ms[j], u)).reached
            == reachable(g0, plan, avoid, start, from, check, j as nat, u) by {
            if j < marks.len() {
                assert(ms[j] == marks[j]);
            } else {
                assert(ms[j] == next);
                assert(j as nat == (k + 1) as nat);
            }
        }
        assert forall|j: int, u: Vertex| 0 < j < ms.len() && in_rect(self.x_size, self.y_size, u) && (#[trigger] grid_at(ms[j], u)).reached
            implies in_rect(self.x_size, self.y_size, grid_at(ms[j], u).prev) && grid_at(ms[j - 1], grid_at(ms[j], u).prev).reached
            && manhattan(grid_at(ms[j], u).prev, u) <= 1 by {
            if j < marks.len() {
                assert(ms[j] == marks[j]);
                assert(ms[j - 1] == marks[j - 1]);
            } else {
                assert(ms[j] == next);
                assert(ms[j - 1] == marks.last());
            }
        }
    }

    proof fn lemma_no_route_empty<P: Plan>(
        &self,
        g0: &TimeGraph,
        plan: &P,
        ms: Seq<Grid<Mark>>,
        av: Seq<Vertex>,
        st: int,
        from: Vertex,
        to: Vertex,
        check: bool,
        k: nat,
    )
        requires
            g0.fits(plan),
            self.same_shape(g0),
            g0.x_size == plan.spec_x_size() && g0.y_size == plan.spec_y_size(),
            self.layers_exact(g0, plan, ms, av, st, from, check),
            ms.len() == k + 2,
            !(exists|u: Vertex| in_rect(self.x_size, self.y_size, u) && (#[trigger] grid_at(ms[k as int + 1], u)).reached),
            forall|j: nat| j <= k ==> !#[trigger] goal_at(g0, plan, av, st, from, to, check, j),
        ensures
            forall|q: Seq<Vertex>| !is_route(g0, plan, av, st, from, to, check, q),
    {
        assert forall|u: Vertex| !#[trigger] reachable(g0, plan, av, st, from, check, (k + 1) as nat, u) by {
            if reachable(g0, plan, av, st, from, check, (k + 1) as nat, u) {
                lemma_reachable_in_plan(g0, plan, av, st, from, check, (k + 1) as nat, u);
                self.lemma_layers_exact_at(g0, plan, ms, av, st, from, check, (k + 1) as int, u);
            }
        }
        assert forall|q: Seq<Vertex>| !is_route(g0, plan, av, st, from, to, check, q) by {
            if is_route(g0, plan, av, st, from, to, check, q) {
                lemma_route_reaches(g0, plan, av, st, from, to, check, q);
                if q.len() - 1 > k {
                    lemma_reach_empty(g0, plan, av, st, from, check, (k + 1) as nat, (q.len() - 1) as nat, to);
                }
            }
        }
    }

    proof fn lemma_no_route_stable<P: Plan>(
        &self,
        g0: &TimeGraph,
        plan: &P,
        ms: Seq<Grid<Mark>>,
        av: Seq<Vertex>,
        st: int,
        from: Vertex,
        to: Vertex,
        check: bool,
        k: nat,
    )
        requires
            g0.fits(plan),
            self.same_shape(g0),
            g0.x_size == plan.spec_x_size() && g0.y_size == plan.spec_y_size(),
            self.layers_exact(g0, plan, ms, av, st, from, check),
            ms.len() == k + 2,
            k >= 1,
            st + k + 1 >= g0.horizon(),
            st >= g0.earliest(),
            forall|u: Vertex| in_rect(self.x_size, self.y_size, u) ==> (#[trigger] grid_at(ms[k as int + 1], u)).reached == grid_at(ms[k as int], u).reached,
            forall|j: nat| j <= k ==> !#[trigger] goal_at(g0, plan, av, st, from, to, check, j),
        ensures
            forall|q: Seq<Vertex>| !is_route(g0, plan, av, st, from, to, check, q),
    {
        assert forall|u: Vertex| #[trigger] reachable(g0, plan, av, st, from, check, (k + 1) as nat, u)
            == reachable(g0, plan, av, st, from, check, k, u) by {
            if in_rect(self.x_size, self.y_size, u) {
                self.lemma_layers_exact_at(g0, plan, ms, av, st, from, check, (k + 1) as int, u);
                self.lemma_layers_exact_at(g0, plan, ms, av, st, from, check, k as int, u);
            } else {
                if reachable(g0, plan, av, st, from, check, (k + 1) as nat, u) {
                    lemma_reachable_in_plan(g0, plan, av, st, from, check, (k + 1) as nat, u);
                }
                if reachable(g0, plan, av, st, from, check, k, u) {
                    lemma_reachable_in_plan(g0, plan, av, st, from, check, k, u);
                }
            }
        }
        assert forall|q: Seq<Vertex>| !is_route(g0, plan, av, st, from, to, check, q) by {
            if is_route(g0, plan, av, st, from, to, check, q) {
                lemma_route_reaches(g0, plan, av, st, from, to, check, q);
                let m = (q.len() - 1) as nat;
                if m >= k {
                    lemma_reach_stable(g0, plan, av, st, from, check, k, m, to);
                    assert(ext_free(g0, plan, st + m + 1, to) == ext_free(g0, plan, st + k + 1, to));
                    assert(!goal_at(g0, plan, av, st, from, to, check, k));
                }
            }
        }
    }

    proof fn lemma_growth<P: Plan>(
        &self,
        g0: &TimeGraph,
        plan: &P,
        ms: Seq<Grid<Mark>>,
        rect: Set<Vertex>,
        av: Seq<Vertex>,
        st: int,
        from: Vertex,
        check: bool,
        k: nat,
    )
        requires
            g0.fits(plan),
            self.same_shape(g0),
            g0.x_size == plan.spec_x_size() && g0.y_size == plan.spec_y_size(),
            self.layers_exact(g0, plan, ms, av, st, from, check),
            ms.len() == k + 2,
            rect.finite(),
            rect == Set::new(|u: Vertex| in_rect(self.x_size, self.y_size, u)),
            st >= g0.earliest(),
            !(k >= 1 && st + k + 1 >= g0.horizon() && forall|u: Vertex| in_rect(self.x_size, self.y_size, u)
                ==> (#[trigger] grid_at(ms[k as int + 1], u)).reached == grid_at(ms[k as int], u).reached),
        ensures
            self.reached_set(ms[k as int + 1]).subset_of(rect),
            self.reached_set(ms[k as int + 1]).len() <= rect.len(),
            k >= 1 && st + k + 1 >= g0.horizon() ==> self.reached_set(ms[k as int]).len() < self.reached_set(ms[k as int + 1]).len(),
    {
        let cur = self.reached_set(ms[k as int]);
        let nxt = self.reached_set(ms[k as int + 1]);
        lemma_len_subset(nxt, rect);
        lemma_len_subset(cur, rect);
        if k >= 1 && st + k + 1 >= g0.horizon() {
            assert forall|u: Vertex| cur.contains(u) implies nxt.contains(u) by {
                self.lemma_layers_exact_at(g0, plan, ms, av, st, from, check, k as int, u);
                self.lemma_layers_exact_at(g0, plan, ms, av, st, from, check, (k + 1) as int, u);
                lemma_reachable_in_plan(g0, plan, av, st, from, check, k, u);
                lemma_reach_step(g0, plan, av, st, from, check, k, u);
                lemma_reach_step(g0, plan, av, st, from, check, (k - 1) as nat, u);
                assert(((k - 1) as nat + 1) as nat == k);
                assert(manhattan(u, u) == 0);
            }
            let x = choose|x: Vertex| in_rect(self.x_size, self.y_size, x) && !((#[trigger] grid_at(ms[k as int + 1], x)).reached == grid_at(ms[k as int], x).reached);
            assert(nxt.contains(x) && !cur.contains(x));
            assert(cur.insert(x).subset_of(nxt));
            lemma_len_subset(cur.insert(x), nxt);
        }
    }

    /// The route recorded by a search that stopped at layer `k`.
    #[verifier::rlimit(100)]
    fn finish<P: Plan>(
        &self,
        gz: Ghost<TimeGraph>,
        plan: &P,
        marks: &Vec<Grid<Mark>>,
        avz: Ghost<Seq<Vertex>>,
        sz: Ghost<int>,
        start_time: usize,
        from: Vertex,
        to: Vertex,
        check: bool,
        k: usize,
    ) -> (p: Path)
        requires
            self.wf(),
            gz@.fits(plan),
            sz@ == start_time as int,
            in_rect(self.x_size, self.y_size, to),
            !avz@.contains(to),
            marks@.len() == k + 1,
            self.layers_exact(&gz@, plan, marks@, avz@, sz@, from, check),
            forall|j: nat| j < k ==> !#[trigger] goal_at(&gz@, plan, avz@, sz@, from, to, check, j),
            goal_at(&gz@, plan, avz@, sz@, from, to, check, k as nat),
        ensures
            p.start_time == start_time,
            p.nodes@.len() == k + 1,
            is_route(&gz@, plan, avz@, sz@, from, to, check, p.nodes@),
            forall|q: Seq<Vertex>| is_route(&gz@, plan, avz@, sz@, from, to, check, q) ==> q.len() >= p.nodes@.len(),
    {
        let ghost g0 = gz@;
        let ghost av = avz@;
        let ghost st = sz@;
        proof {
            self.lemma_layers_exact_at(&g0, plan, marks@, av, st, from, check, k as int, to);
        }
        let nodes = self.trace(Ghost(g0), plan, marks, Ghost(av), Ghost(st), from, check, k, to);
        let path = Path { start_time, nodes };
        proof {
            lemma_traced_route(&g0, plan, av, st, from, to, check, k as nat, nodes@);
        }
        path
    }

    /// Is layer `k` the goal? The layer after it is appended first if
    /// missing.
    fn goal_here<P: Plan>(
        &mut self,
        gz: Ghost<TimeGraph>,
        plan: &P,
        marks: &Vec<Grid<Mark>>,
        avz: Ghost<Seq<Vertex>>,
        sz: Ghost<int>,
        start_time: usize,
        from: Vertex,
        to: Vertex,
        check: bool,
        k: usize,
    ) -> (r: bool)
        requires
            old(self).extends(&gz@, plan),
            gz@.fits(plan),
            old(self).x_size == gz@.x_size && old(self).y_size == gz@.y_size,
            sz@ == start_time as int,
            sz@ >= gz@.earliest(),
            in_rect(old(self).x_size, old(self).y_size, to),
            !avz@.contains(to),
            marks@.len() == k + 1,
            start_time + k + 2 <= usize::MAX,
            old(self).layers_exact(&gz@, plan, marks@, avz@, sz@, from, check),
        ensures
            final(self).extends(&gz@, plan),
            final(self).x_size == old(self).x_size && final(self).y_size == old(self).y_size,
            final(self).layers_exact(&gz@, plan, marks@, avz@, sz@, from, check),
            r == goal_at(&gz@, plan, avz@, sz@, from, to, check, k as nat),
            sz@ + k + 1 < final(self).horizon(),
    {
        let ghost g0 = gz@;
        let ghost av = avz@;
        let ghost st = sz@;
        proof {
            self.lemma_extends_facts(&g0, plan);
            lemma_rect_fits_sides(self.x_size, self.y_size);
        }
        if self.earliest_time + self.layers.len() <= start_time + k + 1 {
            let extra = start_time + k + 2 - (self.earliest_time + self.layers.len());
            let ghost g1 = *self;
            self.extend(plan, extra);
            proof {
                TimeGraph::lemma_extends_intro(&g1, self, plan);
                TimeGraph::lemma_extends_trans(&g0, &g1, self, plan);
            }
        }
        proof {
            reveal(TimeGraph::layers_exact);
            self.lemma_extends_facts(&g0, plan);
            self.lemma_layers_exact_at(&g0, plan, marks@, av, st, from, check, k as int, to);
            self.lemma_ext_free_now(&g0, plan, st + k + 1, to);
        }
        let last = &marks[k];
        let to_reached = last[to.x as usize][to.y as usize].reached;
        to_reached && self.is_free(start_time + k + 1, to)
    }

    /// One round of the search past a layer that is not the goal: the next
    /// layer, or nothing when no route can exist.
    fn advance<P: Plan>(
        &self,
        gz: Ghost<TimeGraph>,
        plan: &P,
        marks: &Vec<Grid<Mark>>,
        avoid: &Vec<Vertex>,
        sz: Ghost<int>,
        start_time: usize,
        from: Vertex,
        to: Vertex,
        check: bool,
        k: usize,
        h0: usize,
        rz: Ghost<Set<Vertex>>,
    ) -> (r: Option<Grid<Mark>>)
        requires
            self.extends(&gz@, plan),
            gz@.fits(plan),
            gz@.x_size == plan.spec_x_size() && gz@.y_size == plan.spec_y_size(),
            self.x_size == gz@.x_size && self.y_size == gz@.y_size,
            h0 == gz@.horizon(),
            sz@ == start_time as int,
            sz@ >= gz@.earliest(),
            rz@.finite(),
            rz@ == Set::new(|u: Vertex| in_rect(self.x_size, self.y_size, u)),
            marks@.len() == k + 1,
            start_time + k + 1 < self.horizon(),
            self.layers_exact(&gz@, plan, marks@, avoid@, sz@, from, check),
            in_rect(self.x_size, self.y_size, to),
            forall|j: nat| j <= k ==> !#[trigger] goal_at(&gz@, plan, avoid@, sz@, from, to, check, j),
        ensures
            r is None ==> forall|q: Seq<Vertex>| !is_route(&gz@, plan, avoid@, sz@, from, to, check, q),
            r matches Some(next) ==> {
                &&& self.layers_exact(&gz@, plan, marks@.push(next), avoid@, sz@, from, check)
                &&& self.reached_set(next).subset_of(rz@)
                &&& self.reached_set(next).len() <= rz@.len()
                &&& (k >= 1 && sz@ + k + 1 >= gz@.horizon() ==> self.reached_set(marks@[k as int]).len() < self.reached_set(next).len())
            },
    {
        let ghost g0 = gz@;
        let ghost av = avoid@;
        let ghost st = sz@;
        let ghost rect = rz@;
        proof {
            self.lemma_extends_facts(&g0, plan);
            self.lemma_fits_wf(plan);
            self.lemma_layers_exact_at(&g0, plan, marks@, av, st, from, check, k as int, to);
        }
        let last = &marks[k];
        let next = self.layer_step(last, start_time + k + 1, avoid);
        proof {
            self.lemma_push_layer(&g0, plan, marks@, next, av, st, from, check);
        }
        let ghost marks_next = marks@.push(next);
        if !self.any_reached(&next) {
            proof {
                self.lemma_no_route_empty(&g0, plan, marks_next, av, st, from, to, check, k as nat);
            }
            return None;
        }
        if k >= 1 && start_time + k + 1 >= h0 && self.same_reached(&next, last) {
            proof {
                self.lemma_no_route_stable(&g0, plan, marks_next, av, st, from, to, check, k as nat);
            }
            return None;
        }
        proof {
            assert(marks_next[k as int + 1] == next);
            assert(marks_next[k as int] == marks@[k as int]);
            self.lemma_growth(&g0, plan, marks_next, rect, av, st, from, check, k as nat);
        }
        Some(next)
    }

    /// Earliest-arrival search, one time layer after another: layer `k`
    /// holds exactly the vertices reachable `k` steps after `start`. The
    /// search stops at the first layer where `to` is reachable and free one
    /// step later; it gives up when a layer is empty, or when, past the
    /// existing layers, a layer repeats the one before.
    #[verifier::rlimit(100)]
    fn bfs<P: Plan>(&mut self, plan: &P, start_time: usize, from: Vertex, to: Vertex, check: bool, avoid: &Vec<Vertex>) -> (r: Option<Path>)
        requires
            old(self).fits(plan),
            start_time >= old(self).earliest(),
        ensures
            final(self).extends(old(self), plan),
            r matches Some(p) ==> {
                &&& p.start_time == start_time
                &&& is_route(old(self), plan, avoid@, start_time as int, from, to, check, p.nodes@)
                &&& forall|q: Seq<Vertex>| is_route(old(self), plan, avoid@, start_time as int, from, to, check, q) ==> q.len() >= p.nodes@.len()
                &&& p.spec_end_time() + 1 < final(self).horizon()
            },
            r is None && old(self).search_room(start_time as int) ==> forall|q: Seq<Vertex>|
                !is_route(old(self), plan, avoid@, start_time as int, from, to, check, q),
    {
        let ghost g0 = *self;
        let ghost av = avoid@;
        let ghost st = start_time as int;
        proof {
            TimeGraph::lemma_extends_refl(self, plan);
            lemma_rect_fits_sides(self.x_size, self.y_size);
        }
        if !plan.contains(&from) || contains_vertex(avoid, to) {
            return None;
        }
        let h0 = self.earliest_time + self.layers.len();
        if check && start_time < h0 && !self.is_free(start_time, from) {
            return None;
        }
        proof {
            plan.lemma_shape(from);
            plan.lemma_shape(to);
        }
        if !(to.x < self.x_size && to.y < self.y_size) {
            proof {
                assert forall|q: Seq<Vertex>| !is_route(&g0, plan, av, st, from, to, check, q) by {
                    if is_route(&g0, plan, av, st, from, to, check, q) {
                        g0.lemma_ext_free_contains(plan, st + q.len(), to);
                    }
                }
            }
            return None;
        }
        let cells_list = rect_vertices(self.x_size, self.y_size);
        let ghost rect = Set::new(|u: Vertex| in_rect(self.x_size, self.y_size, u));
        proof {
            assert(cells_list@.to_set() =~= rect);
            cells_list@.unique_seq_to_set();
        }
        let cells = cells_list.len();
        let base = if start_time > h0 { start_time } else { h0 };
        if cells > usize::MAX - 4 || base > usize::MAX - 4 - cells {
            return None;
        }
        let pre: usize = if start_time < h0 { h0 - start_time } else { 0 };
        let first = self.first_layer(Ghost(g0), plan, Ghost(av), Ghost(st), from, check);
        let mut marks: Vec<Grid<Mark>> = vec![first];
        assert(marks@ == seq![first]);
        let mut k: usize = 0;
        let mut found = false;
        while !found
            invariant_except_break
                !found,
            invariant
                g0 == *old(self),
                self.extends(&g0, plan),
                g0.fits(plan),
                g0.x_size == plan.spec_x_size() && g0.y_size == plan.spec_y_size(),
                self.x_size == g0.x_size && self.y_size == g0.y_size,
                h0 == g0.horizon(),
                st == start_time as int,
                st >= g0.earliest(),
                pre == (if st < h0 { h0 - st } else { 0int }),
                base == st + pre,
                base + cells + 4 <= usize::MAX,
                cells == rect.len(),
                rect.finite(),
                rect == Set::new(|u: Vertex| in_rect(self.x_size, self.y_size, u)),
                av == avoid@,
                !av.contains(to),
                in_rect(self.x_size, self.y_size, to),
                marks@.len() == k + 1,
                self.layers_exact(&g0, plan, marks@, av, st, from, check),
                forall|j: nat| j < k ==> !#[trigger] goal_at(&g0, plan, av, st, from, to, check, j),
                k <= pre + 1 + self.reached_set(marks@[k as int]).len(),
                self.reached_set(marks@[k as int]).subset_of(rect),
                found ==> goal_at(&g0, plan, av, st, from, to, check, k as nat) && st + k + 1 < self.horizon(),
            ensures
                found,
            decreases (if k == 0 { pre + 2 } else if st + k < h0 { h0 - st - k } else { 0 }), rect.len() - self.reached_set(marks@[k as int]).len(),
        {
            proof {
                self.lemma_extends_facts(&g0, plan);
                lemma_len_subset(self.reached_set(marks@[k as int]), rect);
            }
            let here = self.goal_here(Ghost(g0), plan, &marks, Ghost(av), Ghost(st), start_time, from, to, check, k);
            if here {
                found = true;
                break;
            }
            proof {
                assert(!goal_at(&g0, plan, av, st, from, to, check, k as nat));
                assert forall|j: nat| j <= k implies !#[trigger] goal_at(&g0, plan, av, st, from, to, check, j) by {
                    if j < k {
                        assert(!goal_at(&g0, plan, av, st, from, to, check, j));
                    }
                }
            }
            let next = match self.advance(Ghost(g0), plan, &marks, avoid, Ghost(st), start_time, from, to, check, k, h0, Ghost(rect)) {
                None => {
                    return None;
                },
                Some(next) => next,
            };
            let ghost marks_next = marks@.push(next);
            marks.push(next);
            assert(marks@ == marks_next);
            k = k + 1;
        }
        assert(found);
        assert(goal_at(&g0, plan, av, st, from, to, check, k as nat));
        proof {
            self.lemma_extends_facts(&g0, plan);
            self.lemma_fits_wf(plan);
        }
        Some(self.finish(Ghost(g0), plan, &marks, Ghost(av), Ghost(st), start_time, from, to, check, k))
    }

    /// The route the marks record, ending on `to` at layer `k`.
    fn trace<P: Plan>(
        &self,
        gz: Ghost<TimeGraph>,
        plan: &P,
        marks: &Vec<Grid<Mark>>,
        avz: Ghost<Seq<Vertex>>,
        sz: Ghost<int>,
        from: Vertex,
        check: bool,
        k: usize,
        to: Vertex,
    ) -> (nodes: Vec<Vertex>)
        requires
            self.wf(),
            self.layers_exact(&gz@, plan, marks@, avz@, sz@, from, check),
            k < marks@.len(),
            in_rect(self.x_size, self.y_size, to),
            grid_at(marks@[k as int], to).reached,
        ensures
            nodes@.len() == k + 1,
            nodes@.last() == to,
            forall|j: int| 0 <= j <= k ==> reachable(&gz@, plan, avz@, sz@, from, check, j as nat, #[trigger] nodes@[j]),
            forall|j: int| 1 <= j <= k ==> manhattan(nodes@[j - 1], #[trigger] nodes@[j]) <= 1,
    {
        let ghost g0 = gz@;
        let ghost avoid = avz@;
        let ghost start = sz@;
        proof {
            lemma_rect_fits_sides(self.x_size, self.y_size);
        }
        let n = marks.len();
        assert(k < n);
        let len = k + 1;
        let mut nodes: Vec<Vertex> = vec![to; len];
        let mut cur = to;
        let mut i = k;
        while i > 0
            invariant
                self.wf(),
                x_size_ok(self.x_size, self.y_size),
                self.layers_exact(&g0, plan, marks@, avoid, start, from, check),
                len == k + 1,
                k < marks@.len(),
                nodes@.len() == len,
                i <= k,
                in_rect(self.x_size, self.y_size, cur),
                grid_at(marks@[i as int], cur).reached,
                nodes@[i as int] == cur,
                nodes@[k as int] == to,
                forall|j: int| i <= j <= k ==> grid_at(marks@[j], #[trigger] nodes@[j]).reached && in_rect(self.x_size, self.y_size, nodes@[j]),
                forall|j: int| i < j <= k ==> manhattan(nodes@[j - 1], #[trigger] nodes@[j]) <= 1,
            decreases i,
        {
            proof {
                self.lemma_layers_exact_at(&g0, plan, marks@, avoid, start, from, check, i as int, cur);
            }
            let p = marks[i][cur.x as usize][cur.y as usize].prev;
            assert(p == grid_at(marks@[i as int], cur).prev);
            let ghost before = nodes@;
            nodes.set(i - 1, p);
            assert forall|j: int| i - 1 <= j <= k implies grid_at(marks@[j], #[trigger] nodes@[j]).reached && in_rect(self.x_size, self.y_size, nodes@[j]) by {
                if j >= i {
                    assert(nodes@[j] == before[j]);
                }
            }
            assert forall|j: int| i - 1 < j <= k implies manhattan(nodes@[j - 1], #[trigger] nodes@[j]) <= 1 by {
                if j > i {
                    assert(nodes@[j] == before[j]);
                    assert(nodes@[j - 1] == before[j - 1]);
                }
            }
            cur = p;
            i = i - 1;
        }
        assert forall|j: int| 0 <= j <= k implies reachable(&g0, plan, avoid, start, from, check, j as nat, #[trigger] nodes@[j]) by {
            assert(grid_at(marks@[j], nodes@[j]).reached);
            self.lemma_layers_exact_at(&g0, plan, marks@, avoid, start, from, check, j, nodes@[j]);
        }
        nodes
    }

    /// Earliest-arrival search from `from` at `start_time` to `to`: the
    /// shortest route of steps to a neighbor or in place, on vertices free
    /// at their times (layers appended as needed count as fresh), with `to`
    /// free one step after arrival. Nothing is found exactly when no such
    /// route exists, provided times stay representable.
    pub fn find_path<P: Plan>(&mut self, plan: &P, start_time: usize, from: Vertex, to: Vertex) -> (r: Option<Path>)
        requires
            old(self).fits(plan),
            start_time >= old(self).earliest(),
        ensures
            final(self).extends(old(self), plan),
            r matches Some(p) ==> {
                &&& p.start_time == start_time
                &&& p.spec_end_time() + 1 < final(self).horizon()
                &&& is_route(old(self), plan, Seq::empty(), start_time as int, from, to, true, p.nodes@)
                &&& forall|q: Seq<Vertex>| is_route(old(self), plan, Seq::empty(), start_time as int, from, to, true, q) ==> q.len() >= p.nodes@.len()
            },
            r is None && old(self).search_room(start_time as int) ==> forall|q: Seq<Vertex>|
                !is_route(old(self), plan, Seq::empty(), start_time as int, from, to, true, q),
    {
        let none: Vec<Vertex> = Vec::new();
        assert(none@ =~= Seq::<Vertex>::empty());
        self.bfs(plan, start_time, from, to, true, &none)
    }

    /// The path of `find_path` from the earliest start time, among the
    /// layers there are now, from which one is found.
    pub fn find_earliest_path<P: Plan>(&mut self, plan: &P, from: Vertex, to: Vertex) -> (r: Option<Path>)
        requires
            old(self).fits(plan),
        ensures
            final(self).extends(old(self), plan),
            r matches Some(path) ==> {
                &&& old(self).earliest() <= path.start_time < old(self).horizon()
                &&& path.nodes@.len() >= 1
                &&& path.nodes@[0] == from
                &&& path.nodes@.last() == to
            },
    {
        let ghost g0 = *self;
        proof {
            TimeGraph::lemma_extends_refl(self, plan);
        }
        let first = self.earliest_time;
        let end = self.earliest_time + self.layers.len();
        let mut start_time = first;
        while start_time < end
            invariant
                g0 == *old(self),
                self.extends(&g0, plan),
                first == g0.earliest(),
                end == g0.horizon(),
                first <= start_time,
            decreases end - start_time,
        {
            let ghost g1 = *self;
            proof {
                self.lemma_extends_facts(&g0, plan);
            }
            let found = self.find_path(plan, start_time, from, to);
            proof {
                TimeGraph::lemma_extends_trans(&g0, &g1, self, plan);
            }
            if found.is_some() {
                return found;
            }
            start_time = start_time + 1;
        }
        None
    }

    /// As `find_path`, for a robot that holds `from` itself: `from` need not
    /// be free at `start_time`, and no later node may be in `avoid`
    /// (vertices where other robots stand).
    pub fn find_path_from<P: Plan>(&mut self, plan: &P, start_time: usize, from: Vertex, to: Vertex, avoid: &Vec<Vertex>) -> (r: Option<Path>)
        requires
            old(self).fits(plan),
            start_time >= old(self).earliest(),
        ensures
            final(self).extends(old(self), plan),
            r matches Some(p) ==> {
                &&& p.start_time == start_time
                &&& p.spec_end_time() + 1 < final(self).horizon()
                &&& is_route(old(self), plan, avoid@, start_time as int, from, to, false, p.nodes@)
                &&& forall|q: Seq<Vertex>| is_route(old(self), plan, avoid@, start_time as int, from, to, false, q) ==> q.len() >= p.nodes@.len()
            },
            r is None && old(self).search_room(start_time as int) ==> forall|q: Seq<Vertex>|
                !is_route(old(self), plan, avoid@, start_time as int, from, to, false, q),
    {
        self.bfs(plan, start_time, from, to, false, avoid)
    }

}

/// Is `v` free at `t` in `g` once fresh layers of `plan` are appended?
pub open spec fn ext_free<P: Plan>(g: &TimeGraph, plan: &P, t: int, v: Vertex) -> bool {
    if t < g.horizon() {
        g.is_free_at(t, v)
    } else {
        g.earliest() <= t && plan.spec_contains(v)
    }
}

/// Can a robot leaving the plan vertex `from` at `start` stand on `v`
/// after `k` steps, each to a neighbor or in place, on vertices free (after
/// `start`) in `g` extended with fresh layers and outside `avoid`? When
/// `check` holds, `from` itself must be free at `start`.
pub open spec fn reachable<P: Plan>(
    g: &TimeGraph,
    plan: &P,
    avoid: Seq<Vertex>,
    start: int,
    from: Vertex,
    check: bool,
    k: nat,
    v: Vertex,
) -> bool
    decreases k,
{
    if k == 0 {
        v == from && plan.spec_contains(from) && (check ==> ext_free(g, plan, start, from))
    } else {
        ext_free(g, plan, start + k, v) && !avoid.contains(v) && exists|w: Vertex|
            reachable(g, plan, avoid, start, from, check, (k - 1) as nat, w) && #[trigger] manhattan(w, v) <= 1
    }
}

/// A route from `from` at `start` to `to`: node `k` is occupied at time
/// `start + k`, consecutive nodes are equal or adjacent, each later node is
/// free and outside `avoid`, and `to` stays free one step after arrival.
pub open spec fn is_route<P: Plan>(
    g: &TimeGraph,
    plan: &P,
    avoid: Seq<Vertex>,
    start: int,
    from: Vertex,
    to: Vertex,
    check: bool,
    nodes: Seq<Vertex>,
) -> bool {
    &&& nodes.len() >= 1
    &&& nodes[0] == from
    &&& nodes.last() == to
    &&& plan.spec_contains(from)
    &&& (check ==> ext_free(g, plan, start, from))
    &&& forall|k: int| 1 <= k < nodes.len() ==> ext_free(g, plan, start + k, #[trigger] nodes[k]) && !avoid.contains(nodes[k])
        && manhattan(nodes[k - 1], nodes[k]) <= 1
    &&& ext_free(g, plan, start + nodes.len(), to)
    &&& !avoid.contains(to)
}

/// The search may stop at layer `k`: `to` is reachable there and free one
/// step later.
pub open spec fn goal_at<P: Plan>(
    g: &TimeGraph,
    plan: &P,
    avoid: Seq<Vertex>,
    start: int,
    from: Vertex,
    to: Vertex,
    check: bool,
    k: nat,
) -> bool {
    reachable(g, plan, avoid, start, from, check, k, to) && ext_free(g, plan, start + k + 1, to) && !avoid.contains(to)
}

pub proof fn lemma_reach_step<P: Plan>(
    g: &TimeGraph,
    plan: &P,
    avoid: Seq<Vertex>,
    start: int,
    from: Vertex,
    check: bool,
    k: nat,
    v: Vertex,
)
    ensures
        reachable(g, plan, avoid, start, from, check, k + 1, v) == (ext_free(g, plan, start + k + 1, v) && !avoid.contains(v)
            && exists|w: Vertex| reachable(g, plan, avoid, start, from, check, k, w) && #[trigger] manhattan(w, v) <= 1),
{
    let m = (k + 1) as nat;
    assert((m - 1) as nat == k);
    assert(reachable(g, plan, avoid, start, from, check, m, v) == (ext_free(g, plan, start + m, v) && !avoid.contains(v)
        && exists|w: Vertex| reachable(g, plan, avoid, start, from, check, (m - 1) as nat, w) && #[trigger] manhattan(w, v) <= 1));
}

/// Every route ends where the search may stop, at the layer of its last
/// node.
pub proof fn lemma_route_reaches<P: Plan>(
    g: &TimeGraph,
    plan: &P,
    avoid: Seq<Vertex>,
    start: int,
    from: Vertex,
    to: Vertex,
    check: bool,
    nodes: Seq<Vertex>,
)
    requires
        is_route(g, plan, avoid, start, from, to, check, nodes),
    ensures
        goal_at(g, plan, avoid, start, from, to, check, (nodes.len() - 1) as nat),
{
    lemma_route_prefix(g, plan, avoid, start, from, to, check, nodes, nodes.len() - 1);
}

proof fn lemma_route_prefix<P: Plan>(
    g: &TimeGraph,
    plan: &P,
    avoid: Seq<Vertex>,
    start: int,
    from: Vertex,
    to: Vertex,
    check: bool,
    nodes: Seq<Vertex>,
    j: int,
)
    requires
        is_route(g, plan, avoid, start, from, to, check, nodes),
        0 <= j < nodes.len(),
    ensures
        reachable(g, plan, avoid, start, from, check, j as nat, nodes[j]),
    decreases j,
{
    if j > 0 {
        lemma_route_prefix(g, plan, avoid, start, from, to, check, nodes, j - 1);
        lemma_reach_step(g, plan, avoid, start, from, check, (j - 1) as nat, nodes[j]);
        assert(manhattan(nodes[j - 1], nodes[j]) <= 1);
        assert(ext_free(g, plan, start + j, nodes[j]));
        assert(((j - 1) as nat + 1) as nat == j as nat);
    }
}

/// A reachable vertex lies in the plan's rectangle.
pub proof fn lemma_reachable_in_plan<P: Plan>(
    g: &TimeGraph,
    plan: &P,
    avoid: Seq<Vertex>,
    start: int,
    from: Vertex,
    check: bool,
    k: nat,
    v: Vertex,
)
    requires
        g.fits(plan),
        reachable(g, plan, avoid, start, from, check, k, v),
    ensures
        plan.spec_contains(v),
        in_rect(plan.spec_x_size(), plan.spec_y_size(), v),
{
    plan.lemma_shape(v);
    if k > 0 {
        lemma_reach_step(g, plan, avoid, start, from, check, (k - 1) as nat, v);
        assert(((k - 1) as nat + 1) as nat == k);
        g.lemma_ext_free_contains(plan, start + k, v);
    }
}

/// Once no vertex is reachable, none is reachable later.
pub proof fn lemma_reach_empty<P: Plan>(
    g: &TimeGraph,
    plan: &P,
    avoid: Seq<Vertex>,
    start: int,
    from: Vertex,
    check: bool,
    j: nat,
    m: nat,
    v: Vertex,
)
    requires
        forall|u: Vertex| !#[trigger] reachable(g, plan, avoid, start, from, check, j, u),
        j <= m,
    ensures
        !reachable(g, plan, avoid, start, from, check, m, v),
    decreases m - j,
{
    if m > j {
        lemma_reach_step(g, plan, avoid, start, from, check, (m - 1) as nat, v);
        assert(((m - 1) as nat + 1) as nat == m);
        assert forall|w: Vertex| !#[trigger] reachable(g, plan, avoid, start, from, check, (m - 1) as nat, w) by {
            lemma_reach_empty(g, plan, avoid, start, from, check, j, (m - 1) as nat, w);
        }
    }
}

/// Past the layers of `g`, a reachable set that repeats stays the same.
pub proof fn lemma_reach_stable<P: Plan>(
    g: &TimeGraph,
    plan: &P,
    avoid: Seq<Vertex>,
    start: int,
    from: Vertex,
    check: bool,
    k: nat,
    m: nat,
    v: Vertex,
)
    requires
        k >= 1,
        start + k + 1 >= g.horizon(),
        start >= g.earliest(),
        forall|u: Vertex| #[trigger] reachable(g, plan, avoid, start, from, check, k + 1, u) == reachable(g, plan, avoid, start, from, check, k, u),
        k <= m,
    ensures
        reachable(g, plan, avoid, start, from, check, m, v) == reachable(g, plan, avoid, start, from, check, k, v),
    decreases m - k,
{
    if m > k {
        let m1 = (m - 1) as nat;
        assert forall|w: Vertex| #[trigger] reachable(g, plan, avoid, start, from, check, m1, w) == reachable(g, plan, avoid, start, from, check, k, w) by {
            lemma_reach_stable(g, plan, avoid, start, from, check, k, m1, w);
        }
        lemma_reach_step(g, plan, avoid, start, from, check, m1, v);
        lemma_reach_step(g, plan, avoid, start, from, check, k, v);
        assert((m1 + 1) as nat == m);
        assert(ext_free(g, plan, start + m, v) == ext_free(g, plan, start + k + 1, v));
        if reachable(g, plan, avoid, start, from, check, m, v) {
            let w = choose|w: Vertex| reachable(g, plan, avoid, start, from, check, m1, w) && #[trigger] manhattan(w, v) <= 1;
            assert(reachable(g, plan, avoid, start, from, check, k, w));
        }
        if reachable(g, plan, avoid, start, from, check, (k + 1) as nat, v) {
            let w = choose|w: Vertex| reachable(g, plan, avoid, start, from, check, k, w) && #[trigger] manhattan(w, v) <= 1;
            assert(reachable(g, plan, avoid, start, from, check, m1, w));
        }
    }
}

/// Nodes reachable layer by layer, adjacent in turn and ending on the goal,
/// form a route no route is shorter than, when no earlier layer was a goal.
pub proof fn lemma_traced_route<P: Plan>(
    g: &TimeGraph,
    plan: &P,
    avoid: Seq<Vertex>,
    start: int,
    from: Vertex,
    to: Vertex,
    check: bool,
    k: nat,
    nodes: Seq<Vertex>,
)
    requires
        nodes.len() == k + 1,
        nodes.last() == to,
        forall|j: int| 0 <= j <= k ==> reachable(g, plan, avoid, start, from, check, j as nat, #[trigger] nodes[j]),
        forall|j: int| 1 <= j <= k ==> manhattan(nodes[j - 1], #[trigger] nodes[j]) <= 1,
        goal_at(g, plan, avoid, start, from, to, check, k),
        forall|j: nat| j < k ==> !#[trigger] goal_at(g, plan, avoid, start, from, to, check, j),
    ensures
        is_route(g, plan, avoid, start, from, to, check, nodes),
        forall|q: Seq<Vertex>| is_route(g, plan, avoid, start, from, to, check, q) ==> q.len() >= nodes.len(),
{
    assert(reachable(g, plan, avoid, start, from, check, 0, nodes[0]));
    assert forall|j: int| 1 <= j < nodes.len() implies ext_free(g, plan, start + j, #[trigger] nodes[j]) && !avoid.contains(nodes[j])
        && manhattan(nodes[j - 1], nodes[j]) <= 1 by {
        assert(reachable(g, plan, avoid, start, from, check, j as nat, nodes[j]));
        lemma_reach_step(g, plan, avoid, start, from, check, (j - 1) as nat, nodes[j]);
        assert(((j - 1) as nat + 1) as nat == j as nat);
    }
    assert forall|q: Seq<Vertex>| is_route(g, plan, avoid, start, from, to, check, q) implies q.len() >= nodes.len() by {
        lemma_route_reaches(g, plan, avoid, start, from, to, check, q);
    }
}

/// Reserving the same path twice leaves the graph as reserving it once.
pub proof fn lemma_remove_path_idempotent(g0: &TimeGraph, g1: &TimeGraph, g2: &TimeGraph, path: &Path)
    requires
        TimeGraph::removal_result(g0, path, g1),
        TimeGraph::removal_result(g1, path, g2),
    ensures
        g2.same_model(g1),
{
}

/// Cleaning the front up to the same time twice leaves the graph as
/// cleaning it once: the second call drops nothing.
pub proof fn lemma_clean_front_idempotent(g0: &TimeGraph, g1: &TimeGraph, g2: &TimeGraph, new_earliest: int)
    requires
        TimeGraph::clean_front_result(g0, new_earliest, g1),
        TimeGraph::clean_front_result(g1, new_earliest, g2),
    ensures
        g2.same_model(g1),
{
    assert forall|t: int, v: Vertex| #[trigger] g2.is_free_at(t, v) == g1.is_free_at(t, v) by {
        g1.lemma_outside_not_free(t, v);
        g2.lemma_outside_not_free(t, v);
    }
}

} // verus!
