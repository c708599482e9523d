//! A rectangle with a periodic grid of holes inside a padded interior;
//! terminals surround the holes and sources line the left side.
use crate::plan::{in_rect, manhattan, rect_fits, rect_neighbors, CellKind, Plan, Rectangle, Vertex};
use vstd::prelude::*;

verus! {

broadcast use crate::seq_facts::lemma_push_contains;

pub struct MiddleTerminals {
    pub x_size: u64,
    pub y_size: u64,
    pub padding: u64,
    pub interval: u64,
}

/// Is `c` on the hole grid along one axis of length `size`?
pub open spec fn on_grid(c: u64, size: u64, padding: u64, interval: u64) -> bool {
    padding <= c && c + padding <= size && (c - padding) % (interval as int) == 0
}

impl MiddleTerminals {
    pub fn new(x_size: u64, y_size: u64, padding: u64, interval: u64) -> (r: MiddleTerminals)
        requires
            rect_fits(x_size, y_size),
            2 * padding < x_size,
            2 * padding < y_size,
            interval > 1,
        ensures
            r.x_size == x_size,
            r.y_size == y_size,
            r.padding == padding,
            r.interval == interval,
            r.wf(),
    {
        MiddleTerminals { x_size, y_size, padding, interval }
    }

    /// Is `v` a hole: on the grid along both axes, inside the rectangle?
    pub open spec fn is_hole(&self, v: Vertex) -> bool {
        &&& in_rect(self.x_size, self.y_size, v)
        &&& on_grid(v.x, self.x_size, self.padding, self.interval)
        &&& on_grid(v.y, self.y_size, self.padding, self.interval)
    }

    fn hole_at(&self, v: &Vertex) -> (r: bool)
        requires
            self.wf(),
        ensures
            r == self.is_hole(*v),
    {
        v.x < self.x_size && v.y < self.y_size && self.padding <= v.x && v.x <= self.x_size - self.padding
            && (v.x - self.padding) % self.interval == 0 && self.padding <= v.y && v.y <= self.y_size
            - self.padding && (v.y - self.padding) % self.interval == 0
    }

    /// The holes, each once.
    pub fn holes(&self) -> (r: Vec<Vertex>)
        requires
            self.wf(),
        ensures
            r@.no_duplicates(),
            forall|v: Vertex| #[trigger] r@.contains(v) <==> self.is_hole(v),
    {
        let mut r: Vec<Vertex> = Vec::new();
        let mut x: u64 = 0;
        while x < self.x_size
            invariant
                self.wf(),
                x <= self.x_size,
                r@.no_duplicates(),
                forall|v: Vertex| #[trigger] r@.contains(v) <==> (v.x < x && self.is_hole(v)),
            decreases self.x_size - x,
        {
            let mut y: u64 = 0;
            while y < self.y_size
                invariant
                    self.wf(),
                    x < self.x_size,
                    y <= self.y_size,
                    r@.no_duplicates(),
                    forall|v: Vertex| #[trigger] r@.contains(v) <==> ((v.x < x || (v.x == x && v.y < y)) && self.is_hole(v)),
                decreases self.y_size - y,
            {
                let v = Vertex { x, y };
                if self.hole_at(&v) {
                    assert(!r@.contains(v));
                    r.push(v);
                }
                y = y + 1;
            }
            x = x + 1;
        }
        r
    }

    fn contains_cell(&self, v: &Vertex) -> (r: bool)
        requires
            self.wf(),
        ensures
            r == self.spec_contains(*v),
    {
        v.x < self.x_size && v.y < self.y_size && !self.hole_at(v)
    }

    fn source_cell(&self, v: &Vertex) -> (r: bool)
        requires
            self.wf(),
        ensures
            r == self.is_source(*v),
    {
        v.x == 0 && self.padding < v.y && v.y < self.y_size - self.padding && self.contains_cell(v)
    }

    fn terminal_cell(&self, v: &Vertex) -> (r: bool)
        requires
            self.wf(),
        ensures
            r == self.is_terminal(*v),
    {
        self.contains_cell(v) && self.next_to_hole(v)
    }

    /// Is one of the four cells next to `v` a hole?
    fn next_to_hole(&self, v: &Vertex) -> (r: bool)
        requires
            self.wf(),
            in_rect(self.x_size, self.y_size, *v),
        ensures
            r == exists|h: Vertex| self.is_hole(h) && manhattan(h, *v) == 1,
    {
        let around = rect_neighbors(self.x_size, self.y_size, v);
        let mut i: usize = 0;
        while i < around.len()
            invariant
                self.wf(),
                i <= around@.len(),
                forall|u: Vertex| #[trigger] around@.contains(u) <==> (in_rect(self.x_size, self.y_size, u) && manhattan(*v, u) == 1),
                forall|k: int| 0 <= k < i ==> !self.is_hole(#[trigger] around@[k]),
            decreases around@.len() - i,
        {
            if self.hole_at(&around[i]) {
                assert(around@.contains(around@[i as int]));
                return true;
            }
            i = i + 1;
        }
        assert forall|h: Vertex| !(self.is_hole(h) && manhattan(h, *v) == 1) by {
            if self.is_hole(h) && manhattan(h, *v) == 1 {
                assert(around@.contains(h));
                let k = choose|k: int| 0 <= k < around@.len() && around@[k] == h;
            }
        }
        false
    }
}

impl Rectangle for MiddleTerminals {
    open spec fn spec_x_size(&self) -> u64 {
        self.x_size
    }

    open spec fn spec_y_size(&self) -> u64 {
        self.y_size
    }

    fn x_size(&self) -> (r: u64) {
        self.x_size
    }

    fn y_size(&self) -> (r: u64) {
        self.y_size
    }
}

impl Plan for MiddleTerminals {
    open spec fn wf(&self) -> bool {
        &&& rect_fits(self.x_size, self.y_size)
        &&& 2 * self.padding < self.x_size
        &&& 2 * self.padding < self.y_size
        &&& self.interval > 1
    }

    open spec fn spec_contains(&self, v: Vertex) -> bool {
        in_rect(self.x_size, self.y_size, v) && !self.is_hole(v)
    }

    open spec fn is_source(&self, v: Vertex) -> bool {
        v.x == 0 && self.padding < v.y && v.y + self.padding < self.y_size && self.spec_contains(v)
    }

    open spec fn is_terminal(&self, v: Vertex) -> bool {
        self.spec_contains(v) && exists|h: Vertex| self.is_hole(h) && manhattan(h, v) == 1
    }

    proof fn lemma_shape(&self, v: Vertex) {
    }

    fn contains(&self, v: &Vertex) -> (r: bool) {
        self.contains_cell(v)
    }

    fn source_at(&self, v: &Vertex) -> (r: bool) {
        self.source_cell(v)
    }

    fn terminal_at(&self, v: &Vertex) -> (r: bool) {
        self.terminal_cell(v)
    }

    fn vertices(&self) -> (r: Vec<Vertex>) {
        self.scan(CellKind::Vertex)
    }

    fn sources(&self) -> (r: Vec<Vertex>) {
        self.scan(CellKind::Source)
    }

    fn terminals(&self) -> (r: Vec<Vertex>) {
        self.scan(CellKind::Terminal)
    }

    fn neighbors(&self, v: &Vertex) -> (r: Vec<Vertex>) {
        let around = rect_neighbors(self.x_size, self.y_size, v);
        let mut r: Vec<Vertex> = Vec::new();
        let mut i: usize = 0;
        while i < around.len()
            invariant
                self.wf(),
                i <= around@.len(),
                around@.no_duplicates(),
                forall|u: Vertex| #[trigger] around@.contains(u) <==> (in_rect(self.x_size, self.y_size, u) && manhattan(*v, u) == 1),
                r@.no_duplicates(),
                forall|u: Vertex| #[trigger] r@.contains(u) <==> (around@.take(i as int).contains(u) && self.spec_contains(u)),
            decreases around@.len() - i,
        {
            let u = around[i];
            assert(around@.take(i + 1) == around@.take(i as int).push(u));
            if self.contains_cell(&u) {
                assert(!around@.take(i as int).contains(u)) by {
                    if around@.take(i as int).contains(u) {
                        let k = choose|k: int| 0 <= k < i && around@.take(i as int)[k] == u;
                        assert(around@[k] == around@[i as int]);
                    }
                }
                assert(!r@.contains(u));
                r.push(u);
            }
            i = i + 1;
        }
        assert(around@.take(around@.len() as int) == around@);
        r
    }
}

impl MiddleTerminals {
    pub open spec fn cell_is(&self, kind: CellKind, v: Vertex) -> bool {
        match kind {
            CellKind::Vertex => self.spec_contains(v),
            CellKind::Source => self.is_source(v),
            CellKind::Terminal => self.is_terminal(v),
        }
    }

    /// The cells of the given kind, each once, column by column.
    fn scan(&self, kind: CellKind) -> (r: Vec<Vertex>)
        requires
            self.wf(),
        ensures
            r@.no_duplicates(),
            forall|v: Vertex| #[trigger] r@.contains(v) <==> self.cell_is(kind, v),
    {
        let mut r: Vec<Vertex> = Vec::new();
        let mut x: u64 = 0;
        while x < self.x_size
            invariant
                self.wf(),
                x <= self.x_size,
                r@.no_duplicates(),
                forall|v: Vertex| #[trigger] r@.contains(v) <==> (v.x < x && v.y < self.y_size && self.cell_is(kind, v)),
            decreases self.x_size - x,
        {
            let mut y: u64 = 0;
            while y < self.y_size
                invariant
                    self.wf(),
                    x < self.x_size,
                    y <= self.y_size,
                    r@.no_duplicates(),
                    forall|v: Vertex|
                        #[trigger] r@.contains(v) <==> (((v.x < x && v.y < self.y_size) || (v.x == x && v.y < y)) && self.cell_is(kind, v)),
                decreases self.y_size - y,
            {
                let v = Vertex { x, y };
                let take = match kind {
                    CellKind::Vertex => self.contains_cell(&v),
                    CellKind::Source => self.source_cell(&v),
                    CellKind::Terminal => self.terminal_cell(&v),
                };
                if take {
                    assert(!r@.contains(v));
                    r.push(v);
                }
                y = y + 1;
            }
            x = x + 1;
        }
        r
    }
}

} // verus!
