//! A rectangle with sources on its left side and terminals on the three
//! other sides, corners excluded from both.
use crate::plan::{in_rect, manhattan, rect_fits, rect_neighbors, rect_vertices, Plan, Rectangle, Vertex};
use vstd::prelude::*;

verus! {

broadcast use crate::seq_facts::lemma_push_contains;

/// Incoming parcels on the left column, outgoing on the top, bottom and
/// right sides.
pub struct OneThreeRectangle {
    pub x_size: u64,
    pub y_size: u64,
}

impl OneThreeRectangle {
    pub fn new(x_size: u64, y_size: u64) -> (r: OneThreeRectangle)
        requires
            rect_fits(x_size, y_size),
        ensures
            r.x_size == x_size,
            r.y_size == y_size,
            r.wf(),
    {
        OneThreeRectangle { x_size, y_size }
    }
}

impl Rectangle for OneThreeRectangle {
    open spec fn spec_x_size(&self) -> u64 {
        self.x_size
    }

    open spec fn spec_y_size(&self) -> u64 {
        self.y_size
    }

    fn x_size(&self) -> (r: u64) {
        self.x_size
    }

    fn y_size(&self) -> (r: u64) {
        self.y_size
    }
}

impl Plan for OneThreeRectangle {
    open spec fn wf(&self) -> bool {
        rect_fits(self.x_size, self.y_size)
    }

    open spec fn spec_contains(&self, v: Vertex) -> bool {
        in_rect(self.x_size, self.y_size, v)
    }

    open spec fn is_source(&self, v: Vertex) -> bool {
        v.x == 0 && 1 <= v.y && v.y + 2 <= self.y_size
    }

    open spec fn is_terminal(&self, v: Vertex) -> bool {
        ||| ((v.y + 1 == self.y_size || v.y == 0) && 1 <= v.x && v.x + 2 <= self.x_size)
        ||| (v.x + 1 == self.x_size && 1 <= v.y && v.y + 2 <= self.y_size)
    }

    proof fn lemma_shape(&self, v: Vertex) {
    }

    fn contains(&self, v: &Vertex) -> (r: bool) {
        v.x < self.x_size && v.y < self.y_size
    }

    fn source_at(&self, v: &Vertex) -> (r: bool) {
        v.x == 0 && 1 <= v.y && v.y < self.y_size - 1
    }

    fn terminal_at(&self, v: &Vertex) -> (r: bool) {
        ((v.y == self.y_size - 1 || v.y == 0) && 1 <= v.x && v.x < self.x_size - 1) || (v.x == self.x_size - 1
            && 1 <= v.y && v.y < self.y_size - 1)
    }

    fn vertices(&self) -> (r: Vec<Vertex>) {
        rect_vertices(self.x_size, self.y_size)
    }

    fn sources(&self) -> (r: Vec<Vertex>) {
        let mut r: Vec<Vertex> = Vec::new();
        let mut y: u64 = 1;
        while y < self.y_size - 1
            invariant
                self.wf(),
                1 <= y,
                y == 1 || y < self.y_size,
                r@.no_duplicates(),
                forall|v: Vertex| #[trigger] r@.contains(v) <==> (v.x == 0 && 1 <= v.y && v.y < y),
            decreases self.y_size - y,
        {
            let v = Vertex { x: 0, y };
            assert(!r@.contains(v));
            r.push(v);
            y = y + 1;
        }
        r
    }

    fn terminals(&self) -> (r: Vec<Vertex>) {
        let ghost xs = self.x_size;
        let ghost ys = self.y_size;
        let mut r: Vec<Vertex> = Vec::new();
        let mut x: u64 = 1;
        while x < self.x_size - 1
            invariant
                self.wf(),
                xs == self.x_size,
                ys == self.y_size,
                1 <= x,
                x == 1 || x < self.x_size,
                r@.no_duplicates(),
                forall|v: Vertex| #[trigger] r@.contains(v) <==> (v.y + 1 == ys && 1 <= v.x && v.x < x),
            decreases self.x_size - x,
        {
            let v = Vertex { x, y: self.y_size - 1 };
            assert(!r@.contains(v));
            r.push(v);
            x = x + 1;
        }
        if self.y_size > 1 {
            let mut x: u64 = 1;
            while x < self.x_size - 1
                invariant
                    self.wf(),
                    xs == self.x_size,
                    ys == self.y_size,
                    1 <= x,
                    x == 1 || x < self.x_size,
                    ys > 1,
                    r@.no_duplicates(),
                    forall|v: Vertex|
                        #[trigger] r@.contains(v) <==> ((v.y + 1 == ys && 1 <= v.x && v.x + 2 <= xs) || (v.y
                            == 0 && 1 <= v.x && v.x < x)),
                decreases self.x_size - x,
            {
                let v = Vertex { x, y: 0 };
            assert(!r@.contains(v));
            r.push(v);
                x = x + 1;
            }
        }
        let mut y: u64 = 1;
        while y < self.y_size - 1
            invariant
                self.wf(),
                xs == self.x_size,
                ys == self.y_size,
                1 <= y,
                y == 1 || y < self.y_size,
                r@.no_duplicates(),
                forall|v: Vertex|
                    #[trigger] r@.contains(v) <==> (((v.y + 1 == ys || v.y == 0) && 1 <= v.x && v.x + 2 <= xs)
                        || (v.x + 1 == xs && 1 <= v.y && v.y < y)),
            decreases self.y_size - y,
        {
            let v = Vertex { x: self.x_size - 1, y };
            assert(!r@.contains(v));
            r.push(v);
            y = y + 1;
        }
        r
    }

    fn neighbors(&self, v: &Vertex) -> (r: Vec<Vertex>) {
        let r = rect_neighbors(self.x_size, self.y_size, v);
        assert(forall|u: Vertex| self.spec_contains(u) == in_rect(self.x_size, self.y_size, u));
        assert(self.spec_x_size() == self.x_size);
        r
    }
}

} // verus!
