//! Lattice geometry: vertices, undirected edges and the plans robots move on.
use vstd::prelude::*;

verus! {

broadcast use crate::seq_facts::lemma_push_contains;

/// A lattice cell.
#[derive(Copy, Clone, Debug, PartialEq, Eq, Hash, Structural)]
pub struct Vertex {
    pub x: u64,
    pub y: u64,
}

pub open spec fn abs_diff(a: u64, b: u64) -> nat {
    if a >= b {
        (a - b) as nat
    } else {
        (b - a) as nat
    }
}

/// Manhattan distance between two cells.
pub open spec fn manhattan(a: Vertex, b: Vertex) -> nat {
    abs_diff(a.x, b.x) + abs_diff(a.y, b.y)
}

impl Vertex {
    /// Manhattan distance to `other`.
    pub fn distance(&self, other: Vertex) -> (r: u64)
        requires
            manhattan(*self, other) <= u64::MAX,
        ensures
            r == manhattan(*self, other),
    {
        let dx: u64 = if self.x >= other.x {
            self.x - other.x
        } else {
            other.x - self.x
        };
        let dy: u64 = if self.y >= other.y {
            self.y - other.y
        } else {
            other.y - self.y
        };
        dx + dy
    }
}

/// An unordered pair of cells; two edges are equal whatever the order of
/// their ends.
#[derive(Copy, Clone, Debug)]
pub struct UndirectedEdge {
    pub first: Vertex,
    pub second: Vertex,
}

impl UndirectedEdge {
    pub open spec fn same_as(self, o: UndirectedEdge) -> bool {
        (self.first == o.first && self.second == o.second) || (self.first == o.second
            && self.second == o.first)
    }
}

impl PartialEq for UndirectedEdge {
    fn eq(&self, o: &UndirectedEdge) -> (r: bool)
        ensures
            r == self.same_as(*o),
    {
        (self.first == o.first && self.second == o.second) || (self.first == o.second
            && self.second == o.first)
    }
}

impl vstd::std_specs::cmp::PartialEqSpecImpl for UndirectedEdge {
    open spec fn obeys_eq_spec() -> bool {
        true
    }

    open spec fn eq_spec(&self, o: &UndirectedEdge) -> bool {
        self.same_as(*o)
    }
}

/// Is `v` inside the `x_size` by `y_size` rectangle anchored at the origin?
pub open spec fn in_rect(x_size: u64, y_size: u64, v: Vertex) -> bool {
    v.x < x_size && v.y < y_size
}

/// Sizes of a rectangle that a bitmap of its cells can be indexed by.
pub open spec fn rect_fits(x_size: u64, y_size: u64) -> bool {
    &&& x_size > 0
    &&& y_size > 0
    &&& x_size as int * y_size as int <= usize::MAX as int
}

/// Each side of a fitting rectangle is itself a valid index bound.
pub proof fn lemma_rect_fits_sides(x_size: u64, y_size: u64)
    requires
        rect_fits(x_size, y_size),
    ensures
        x_size <= usize::MAX,
        y_size <= usize::MAX,
{
    assert(x_size as int <= x_size as int * y_size as int) by (nonlinear_arith)
        requires
            y_size >= 1,
    ;
    assert(y_size as int <= x_size as int * y_size as int) by (nonlinear_arith)
        requires
            x_size >= 1,
    ;
}

/// A plan whose vertices all lie within its bounding rectangle.
pub trait Rectangle {
    spec fn spec_x_size(&self) -> u64;

    spec fn spec_y_size(&self) -> u64;

    fn x_size(&self) -> (r: u64)
        ensures
            r == self.spec_x_size(),
    ;

    fn y_size(&self) -> (r: u64)
        ensures
            r == self.spec_y_size(),
    ;
}

/// Immutable geometry of a warehouse floor.
pub trait Plan: Rectangle {
    /// The plan's parameters are consistent.
    spec fn wf(&self) -> bool;

    spec fn spec_contains(&self, v: Vertex) -> bool;

    spec fn is_source(&self, v: Vertex) -> bool;

    spec fn is_terminal(&self, v: Vertex) -> bool;

    /// Every vertex of a well-formed plan lies in its bounding rectangle, and
    /// sources and terminals are vertices.
    proof fn lemma_shape(&self, v: Vertex)
        requires
            self.wf(),
        ensures
            rect_fits(self.spec_x_size(), self.spec_y_size()),
            self.spec_contains(v) ==> in_rect(self.spec_x_size(), self.spec_y_size(), v),
            self.is_source(v) ==> self.spec_contains(v),
            self.is_terminal(v) ==> self.spec_contains(v),
    ;

    fn contains(&self, v: &Vertex) -> (r: bool)
        requires
            self.wf(),
        ensures
            r == self.spec_contains(*v),
    ;

    /// Is `v` a source?
    fn source_at(&self, v: &Vertex) -> (r: bool)
        requires
            self.wf(),
        ensures
            r == self.is_source(*v),
    ;

    /// Is `v` a terminal?
    fn terminal_at(&self, v: &Vertex) -> (r: bool)
        requires
            self.wf(),
        ensures
            r == self.is_terminal(*v),
    ;

    /// All vertices, each once.
    fn vertices(&self) -> (r: Vec<Vertex>)
        requires
            self.wf(),
        ensures
            r@.no_duplicates(),
            forall|v: Vertex| #[trigger] r@.contains(v) <==> self.spec_contains(v),
    ;

    /// All sources, each once.
    fn sources(&self) -> (r: Vec<Vertex>)
        requires
            self.wf(),
        ensures
            r@.no_duplicates(),
            forall|v: Vertex| #[trigger] r@.contains(v) <==> self.is_source(v),
    ;

    /// All terminals, each once.
    fn terminals(&self) -> (r: Vec<Vertex>)
        requires
            self.wf(),
        ensures
            r@.no_duplicates(),
            forall|v: Vertex| #[trigger] r@.contains(v) <==> self.is_terminal(v),
    ;

    /// The plan's vertices at distance one from the cell `v` of the
    /// rectangle, each once.
    fn neighbors(&self, v: &Vertex) -> (r: Vec<Vertex>)
        requires
            self.wf(),
            in_rect(self.spec_x_size(), self.spec_y_size(), *v),
        ensures
            r@.no_duplicates(),
            forall|u: Vertex| #[trigger] r@.contains(u) <==> (self.spec_contains(u) && manhattan(*v, u) == 1),
    ;
}

/// The four cells at distance one from `v` that lie in the rectangle.
pub fn rect_neighbors(x_size: u64, y_size: u64, v: &Vertex) -> (r: Vec<Vertex>)
    requires
        in_rect(x_size, y_size, *v),
    ensures
        r@.no_duplicates(),
        forall|u: Vertex| #[trigger] r@.contains(u) <==> (in_rect(x_size, y_size, u) && manhattan(*v, u) == 1),
{
    let mut r: Vec<Vertex> = Vec::new();
    if v.x < x_size - 1 {
        r.push(Vertex { x: v.x + 1, y: v.y });
    }
    if v.y < y_size - 1 {
        r.push(Vertex { x: v.x, y: v.y + 1 });
    }
    if v.y > 0 {
        r.push(Vertex { x: v.x, y: v.y - 1 });
    }
    if v.x > 0 {
        r.push(Vertex { x: v.x - 1, y: v.y });
    }
    assert forall|u: Vertex| #[trigger] r@.contains(u) <==> (in_rect(x_size, y_size, u) && manhattan(*v, u)
        == 1) by {
        if in_rect(x_size, y_size, u) && manhattan(*v, u) == 1 {
            if u.x == v.x + 1 {
                assert(r@.contains(Vertex { x: (v.x + 1) as u64, y: v.y }));
            } else if u.y == v.y + 1 {
                assert(r@.contains(Vertex { x: v.x, y: (v.y + 1) as u64 }));
            } else if u.y + 1 == v.y {
                assert(r@.contains(Vertex { x: v.x, y: (v.y - 1) as u64 }));
            } else {
                assert(r@.contains(Vertex { x: (v.x - 1) as u64, y: v.y }));
            }
        }
    }
    r
}

/// All cells of the rectangle, row by row.
pub fn rect_vertices(x_size: u64, y_size: u64) -> (r: Vec<Vertex>)
    ensures
        r@.no_duplicates(),
        forall|v: Vertex| #[trigger] r@.contains(v) <==> in_rect(x_size, y_size, v),
{
    let mut r: Vec<Vertex> = Vec::new();
    let mut x: u64 = 0;
    while x < x_size
        invariant
            x <= x_size,
            r@.no_duplicates(),
            forall|v: Vertex| #[trigger] r@.contains(v) <==> (v.x < x && v.y < y_size),
        decreases x_size - x,
    {
        let mut y: u64 = 0;
        while y < y_size
            invariant
                x < x_size,
                y <= y_size,
                r@.no_duplicates(),
                forall|v: Vertex|
                    #[trigger] r@.contains(v) <==> ((v.x < x && v.y < y_size) || (v.x == x && v.y < y)),
            decreases y_size - y,
        {
            let v = Vertex { x, y };
            assert(!r@.contains(v));
            r.push(v);
            y = y + 1;
        }
        x = x + 1;
    }
    r
}

/// Which cells of a plan to list.
#[derive(Copy, Clone, Debug, PartialEq, Eq, Structural)]
pub enum CellKind {
    Vertex,
    Source,
    Terminal,
}

/// Can `b` be reached from `a` in at most `n` steps between adjacent plan
/// vertices?
pub open spec fn within<P: Plan>(plan: &P, a: Vertex, b: Vertex, n: nat) -> bool
    decreases n,
{
    if n == 0 {
        a == b
    } else {
        within(plan, a, b, (n - 1) as nat) || exists|w: Vertex|
            within(plan, a, w, (n - 1) as nat) && plan.spec_contains(b) && #[trigger] manhattan(w, b) == 1
    }
}

proof fn lemma_within_step<P: Plan>(plan: &P, a: Vertex, b: Vertex, n: nat)
    ensures
        within(plan, a, b, (n + 1) as nat) == (within(plan, a, b, n) || exists|w: Vertex|
            within(plan, a, w, n) && plan.spec_contains(b) && #[trigger] manhattan(w, b) == 1),
{
    let m = (n + 1) as nat;
    assert((m - 1) as nat == n);
    assert(within(plan, a, b, m) == (within(plan, a, b, (m - 1) as nat) || exists|w: Vertex|
        within(plan, a, w, (m - 1) as nat) && plan.spec_contains(b) && #[trigger] manhattan(w, b) == 1));
}

/// Every plan vertex within `radius` steps of `vertex`, each once.
pub fn neighborhood<P: Plan>(plan: &P, vertex: Vertex, radius: u64) -> (r: Vec<Vertex>)
    requires
        plan.wf(),
        plan.spec_contains(vertex),
    ensures
        r@.no_duplicates(),
        forall|b: Vertex| #[trigger] r@.contains(b) <==> within(plan, vertex, b, radius as nat),
{
    let mut discovered: Vec<Vertex> = vec![vertex];
    assert(discovered@ =~= seq![vertex]);
    let mut k: u64 = 0;
    while k < radius
        invariant
            plan.wf(),
            plan.spec_contains(vertex),
            k <= radius,
            discovered@.no_duplicates(),
            forall|b: Vertex| #[trigger] discovered@.contains(b) <==> within(plan, vertex, b, k as nat),
            forall|b: Vertex| #[trigger] discovered@.contains(b) ==> plan.spec_contains(b),
        decreases radius - k,
    {
        let ghost old_set = discovered@;
        let m = discovered.len();
        let mut i: usize = 0;
        while i < m
            invariant
                plan.wf(),
                m == old_set.len(),
                i <= m,
                discovered@.len() >= m,
                discovered@.take(m as int) == old_set,
                discovered@.no_duplicates(),
                forall|b: Vertex| #[trigger] old_set.contains(b) <==> within(plan, vertex, b, k as nat),
                forall|b: Vertex| #[trigger] old_set.contains(b) ==> plan.spec_contains(b),
                forall|b: Vertex| #[trigger] discovered@.contains(b) ==> (old_set.contains(b) || exists|w: Vertex|
                    #[trigger] old_set.contains(w) && plan.spec_contains(b) && manhattan(w, b) == 1),
                forall|j: int, b: Vertex| 0 <= j < i && plan.spec_contains(b) && #[trigger] manhattan(old_set[j], b) == 1 ==> discovered@.contains(b),
            decreases m - i,
        {
            let w = discovered[i];
            assert(old_set[i as int] == w) by {
                assert(discovered@.take(m as int)[i as int] == discovered@[i as int]);
            }
            assert(old_set.contains(w));
            proof {
                plan.lemma_shape(w);
            }
            let around = plan.neighbors(&w);
            let mut j: usize = 0;
            while j < around.len()
                invariant
                    plan.wf(),
                    m == old_set.len(),
                    i < m,
                    old_set[i as int] == w,
                    old_set.contains(w),
                    discovered@.len() >= m,
                    discovered@.take(m as int) == old_set,
                    discovered@.no_duplicates(),
                    j <= around@.len(),
                    forall|u: Vertex| #[trigger] around@.contains(u) <==> (plan.spec_contains(u) && manhattan(w, u) == 1),
                    forall|b: Vertex| #[trigger] old_set.contains(b) ==> plan.spec_contains(b),
                    forall|b: Vertex| #[trigger] discovered@.contains(b) ==> (old_set.contains(b) || exists|x: Vertex|
                        #[trigger] old_set.contains(x) && plan.spec_contains(b) && manhattan(x, b) == 1),
                    forall|q: int, b: Vertex| 0 <= q < i && plan.spec_contains(b) && #[trigger] manhattan(old_set[q], b) == 1 ==> discovered@.contains(b),
                    forall|q: int| 0 <= q < j ==> discovered@.contains(#[trigger] around@[q]),
                decreases around@.len() - j,
            {
                let u = around[j];
                assert(around@.contains(u));
                if !crate::simulation::contains_vertex(&discovered, u) {
                    let ghost before = discovered@;
                    discovered.push(u);
                    assert(discovered@.take(m as int) == before.take(m as int));
                }
                j = j + 1;
            }
            assert forall|b: Vertex| plan.spec_contains(b) && manhattan(old_set[i as int], b) == 1 implies #[trigger] discovered@.contains(b) by {
                assert(around@.contains(b));
                let q = choose|q: int| 0 <= q < around@.len() && around@[q] == b;
            }
            i = i + 1;
        }
        assert forall|b: Vertex| #[trigger] discovered@.contains(b) <==> within(plan, vertex, b, (k + 1) as nat) by {
            lemma_within_step(plan, vertex, b, k as nat);
            if discovered@.contains(b) && !old_set.contains(b) {
                let w = choose|w: Vertex| #[trigger] old_set.contains(w) && plan.spec_contains(b) && manhattan(w, b) == 1;
                assert(within(plan, vertex, w, k as nat));
            }
            if within(plan, vertex, b, (k + 1) as nat) && !within(plan, vertex, b, k as nat) {
                let w = choose|w: Vertex| within(plan, vertex, w, k as nat) && plan.spec_contains(b) && #[trigger] manhattan(w, b) == 1;
                assert(old_set.contains(w));
                let q = choose|q: int| 0 <= q < old_set.len() && old_set[q] == w;
            }
            if within(plan, vertex, b, k as nat) {
                assert(old_set.contains(b));
                let q = choose|q: int| 0 <= q < old_set.len() && old_set[q] == b;
                assert(discovered@.take(m as int)[q] == b);
            }
        }
        k = k + 1;
    }
    discovered
}

/// `a` comes before `b`, by x and then by y.
pub open spec fn vertex_lt(a: Vertex, b: Vertex) -> bool {
    a.x < b.x || (a.x == b.x && a.y < b.y)
}

/// The edge between adjacent plan vertices, named by its lesser end first.
pub open spec fn is_plan_edge<P: Plan>(plan: &P, e: UndirectedEdge) -> bool {
    &&& plan.spec_contains(e.first)
    &&& plan.spec_contains(e.second)
    &&& manhattan(e.first, e.second) == 1
    &&& vertex_lt(e.first, e.second)
}

/// Every edge between adjacent plan vertices, once, lesser end first.
pub fn edges<P: Plan>(plan: &P) -> (r: Vec<UndirectedEdge>)
    requires
        plan.wf(),
    ensures
        r@.no_duplicates(),
        forall|e: UndirectedEdge| #[trigger] r@.contains(e) <==> is_plan_edge(plan, e),
{
    let vertices = plan.vertices();
    let mut r: Vec<UndirectedEdge> = Vec::new();
    let mut i: usize = 0;
    while i < vertices.len()
        invariant
            plan.wf(),
            i <= vertices@.len(),
            vertices@.no_duplicates(),
            forall|v: Vertex| #[trigger] vertices@.contains(v) <==> plan.spec_contains(v),
            r@.no_duplicates(),
            forall|e: UndirectedEdge| #[trigger] r@.contains(e) <==> (is_plan_edge(plan, e) && vertices@.take(i as int).contains(e.first)),
        decreases vertices@.len() - i,
    {
        let v = vertices[i];
        assert(vertices@.contains(v));
        assert(vertices@.take(i + 1) == vertices@.take(i as int).push(v));
        assert(!vertices@.take(i as int).contains(v)) by {
            if vertices@.take(i as int).contains(v) {
                let k = choose|k: int| 0 <= k < i && vertices@.take(i as int)[k] == v;
                assert(vertices@[k] == vertices@[i as int]);
            }
        }
        proof {
            plan.lemma_shape(v);
        }
        let around = plan.neighbors(&v);
        let mut j: usize = 0;
        while j < around.len()
            invariant
                plan.wf(),
                plan.spec_contains(v),
                i < vertices@.len(),
                vertices@.take(i + 1) == vertices@.take(i as int).push(v),
                !vertices@.take(i as int).contains(v),
                j <= around@.len(),
                around@.no_duplicates(),
                forall|u: Vertex| #[trigger] around@.contains(u) <==> (plan.spec_contains(u) && manhattan(v, u) == 1),
                r@.no_duplicates(),
                forall|e: UndirectedEdge| #[trigger] r@.contains(e) <==> (is_plan_edge(plan, e) && (vertices@.take(i as int).contains(e.first)
                    || (e.first == v && around@.take(j as int).contains(e.second)))),
            decreases around@.len() - j,
        {
            let u = around[j];
            assert(around@.take(j + 1) == around@.take(j as int).push(u));
            assert(around@.contains(u));
            if v.x < u.x || (v.x == u.x && v.y < u.y) {
                let e = UndirectedEdge { first: v, second: u };
                assert(!around@.take(j as int).contains(u)) by {
                    if around@.take(j as int).contains(u) {
                        let k = choose|k: int| 0 <= k < j && around@.take(j as int)[k] == u;
                        assert(around@[k] == around@[j as int]);
                    }
                }
                assert(!r@.contains(e));
                r.push(e);
            }
            j = j + 1;
        }
        assert(around@.take(around@.len() as int) == around@);
        i = i + 1;
    }
    assert(vertices@.take(vertices@.len() as int) == vertices@);
    r
}

/// Shortest-path length estimate between two vertices of a plan: the
/// Manhattan distance, a lower bound of every lattice walk.
pub fn path_length(from: Vertex, to: Vertex) -> (r: u64)
    requires
        manhattan(from, to) <= u64::MAX,
    ensures
        r == manhattan(from, to),
{
    from.distance(to)
}

} // verus!
