//! An E-shaped floor: a full column block on the left and horizontal bars
//! to its right, separated by gaps.
use crate::plan::{in_rect, manhattan, rect_fits, rect_neighbors, CellKind, Plan, Rectangle, Vertex};
use vstd::prelude::*;

verus! {

broadcast use crate::seq_facts::lemma_push_contains;

pub struct EPlan {
    pub x_size: u64,
    pub y_size: u64,
    pub vertical_piece_width: u64,
    pub horizontal_piece_height: u64,
}

impl EPlan {
    /// Requires the bars and gaps to fill the height exactly.
    pub fn new(x_size: u64, y_size: u64, vertical_piece_width: u64, horizontal_piece_height: u64) -> (r: EPlan)
        requires
            rect_fits(x_size, y_size),
            horizontal_piece_height <= y_size,
            horizontal_piece_height + 2 <= u64::MAX,
            (y_size - horizontal_piece_height) % (horizontal_piece_height + 2) as int == 0,
        ensures
            r.x_size == x_size,
            r.y_size == y_size,
            r.vertical_piece_width == vertical_piece_width,
            r.horizontal_piece_height == horizontal_piece_height,
            r.wf(),
    {
        EPlan { x_size, y_size, vertical_piece_width, horizontal_piece_height }
    }

    pub open spec fn period(&self) -> int {
        self.horizontal_piece_height + 2
    }

    pub open spec fn spec_nr_gaps(&self) -> int {
        ((self.y_size - self.horizontal_piece_height) as int) / self.period() + 1
    }

    /// Number of gaps between the bars, plus one.
    pub fn nr_gaps(&self) -> (r: u64)
        requires
            self.wf(),
        ensures
            r == self.spec_nr_gaps(),
    {
        let d = self.horizontal_piece_height + 2;
        let x = self.y_size - self.horizontal_piece_height;
        assert(x / d < u64::MAX) by (nonlinear_arith)
            requires
                d >= 2,
                x <= u64::MAX,
        ;
        x / d + 1
    }

    fn contains_cell(&self, v: &Vertex) -> (r: bool)
        requires
            self.wf(),
        ensures
            r == self.spec_contains(*v),
    {
        v.x < self.x_size && v.y < self.y_size && (v.x < self.vertical_piece_width || v.y % (
        self.horizontal_piece_height + 2) < 3)
    }

    fn source_cell(&self, v: &Vertex) -> (r: bool)
        requires
            self.wf(),
        ensures
            r == self.is_source(*v),
    {
        v.x == 0 && self.contains_cell(v)
    }

    fn terminal_cell(&self, v: &Vertex) -> (r: bool)
        requires
            self.wf(),
        ensures
            r == self.is_terminal(*v),
    {
        let p = self.horizontal_piece_height + 2;
        let g = self.nr_gaps();
        self.contains_cell(v) && self.vertical_piece_width <= v.x && (v.y == 0 || v.y == self.y_size - 1 || (v.y % p
            + 1 == self.horizontal_piece_height && v.y / p + 1 < g) || (v.y % p == 0 && 1 <= v.y / p && v.y / p < g))
    }
}

impl Rectangle for EPlan {
    open spec fn spec_x_size(&self) -> u64 {
        self.x_size
    }

    open spec fn spec_y_size(&self) -> u64 {
        self.y_size
    }

    fn x_size(&self) -> (r: u64) {
        self.x_size
    }

    fn y_size(&self) -> (r: u64) {
        self.y_size
    }
}

impl Plan for EPlan {
    open spec fn wf(&self) -> bool {
        &&& rect_fits(self.x_size, self.y_size)
        &&& self.horizontal_piece_height <= self.y_size
        &&& self.horizontal_piece_height + 2 <= u64::MAX
        &&& ((self.y_size - self.horizontal_piece_height) as int) % self.period() == 0
    }

    /// The left block, and to its right the bars: the first three rows of
    /// each period.
    open spec fn spec_contains(&self, v: Vertex) -> bool {
        in_rect(self.x_size, self.y_size, v) && (v.x < self.vertical_piece_width || (v.y as int) % self.period() < 3)
    }

    open spec fn is_source(&self, v: Vertex) -> bool {
        v.x == 0 && self.spec_contains(v)
    }

    /// Right of the left block: the bottom and top rows, the last row of
    /// each bar below a gap, and the first row of each bar above one.
    open spec fn is_terminal(&self, v: Vertex) -> bool {
        &&& self.spec_contains(v)
        &&& self.vertical_piece_width <= v.x
        &&& {
            ||| v.y == 0
            ||| v.y + 1 == self.y_size
            ||| ((v.y as int) % self.period() + 1 == self.horizontal_piece_height && (v.y as int) / self.period() + 1 < self.spec_nr_gaps())
            ||| ((v.y as int) % self.period() == 0 && 1 <= (v.y as int) / self.period() < self.spec_nr_gaps())
        }
    }

    proof fn lemma_shape(&self, v: Vertex) {
    }

    fn contains(&self, v: &Vertex) -> (r: bool) {
        self.contains_cell(v)
    }

    fn source_at(&self, v: &Vertex) -> (r: bool) {
        self.source_cell(v)
    }

    fn terminal_at(&self, v: &Vertex) -> (r: bool) {
        self.terminal_cell(v)
    }

    fn vertices(&self) -> (r: Vec<Vertex>) {
        self.scan(CellKind::Vertex)
    }

    fn sources(&self) -> (r: Vec<Vertex>) {
        self.scan(CellKind::Source)
    }

    fn terminals(&self) -> (r: Vec<Vertex>) {
        self.scan(CellKind::Terminal)
    }

    fn neighbors(&self, v: &Vertex) -> (r: Vec<Vertex>) {
        let around = rect_neighbors(self.x_size, self.y_size, v);
        let mut r: Vec<Vertex> = Vec::new();
        let mut i: usize = 0;
        while i < around.len()
            invariant
                self.wf(),
                i <= around@.len(),
                around@.no_duplicates(),
                forall|u: Vertex| #[trigger] around@.contains(u) <==> (in_rect(self.x_size, self.y_size, u) && manhattan(*v, u) == 1),
                r@.no_duplicates(),
                forall|u: Vertex| #[trigger] r@.contains(u) <==> (around@.take(i as int).contains(u) && self.spec_contains(u)),
            decreases around@.len() - i,
        {
            let u = around[i];
            assert(around@.take(i + 1) == around@.take(i as int).push(u));
            if self.contains_cell(&u) {
                assert(!around@.take(i as int).contains(u)) by {
                    if around@.take(i as int).contains(u) {
                        let k = choose|k: int| 0 <= k < i && around@.take(i as int)[k] == u;
                        assert(around@[k] == around@[i as int]);
                    }
                }
                assert(!r@.contains(u));
                r.push(u);
            }
            i = i + 1;
        }
        assert(around@.take(around@.len() as int) == around@);
        r
    }
}

impl EPlan {
    pub open spec fn cell_is(&self, kind: CellKind, v: Vertex) -> bool {
        match kind {
            CellKind::Vertex => self.spec_contains(v),
            CellKind::Source => self.is_source(v),
            CellKind::Terminal => self.is_terminal(v),
        }
    }

    /// The cells of the given kind, each once, column by column.
    fn scan(&self, kind: CellKind) -> (r: Vec<Vertex>)
        requires
            self.wf(),
        ensures
            r@.no_duplicates(),
            forall|v: Vertex| #[trigger] r@.contains(v) <==> self.cell_is(kind, v),
    {
        let mut r: Vec<Vertex> = Vec::new();
        let mut x: u64 = 0;
        while x < self.x_size
            invariant
                self.wf(),
                x <= self.x_size,
                r@.no_duplicates(),
                forall|v: Vertex| #[trigger] r@.contains(v) <==> (v.x < x && v.y < self.y_size && self.cell_is(kind, v)),
            decreases self.x_size - x,
        {
            let mut y: u64 = 0;
            while y < self.y_size
                invariant
                    self.wf(),
                    x < self.x_size,
                    y <= self.y_size,
                    r@.no_duplicates(),
                    forall|v: Vertex|
                        #[trigger] r@.contains(v) <==> (((v.x < x && v.y < self.y_size) || (v.x == x && v.y < y)) && self.cell_is(kind, v)),
                decreases self.y_size - y,
            {
                let v = Vertex { x, y };
                let take = match kind {
                    CellKind::Vertex => self.contains_cell(&v),
                    CellKind::Source => self.source_cell(&v),
                    CellKind::Terminal => self.terminal_cell(&v),
                };
                if take {
                    assert(!r@.contains(v));
                    r.push(v);
                }
                y = y + 1;
            }
            x = x + 1;
        }
        r
    }
}

} // verus!
