//! Rectangular arrays of cells indexed by lattice coordinates.
use crate::plan::Vertex;
use vstd::prelude::*;

verus! {

/// A column-major array of cells: `g[x][y]` holds the cell at `(x, y)`.
pub type Grid<T> = Vec<Vec<T>>;

/// Does `g` have `x_size` columns of `y_size` cells each?
pub open spec fn grid_shaped<T>(g: Grid<T>, x_size: u64, y_size: u64) -> bool {
    &&& g@.len() == x_size
    &&& forall|x: int| 0 <= x < x_size ==> (#[trigger] g@[x])@.len() == y_size
}

/// The cell of `g` at `v`.
pub open spec fn grid_at<T>(g: Grid<T>, v: Vertex) -> T {
    g@[v.x as int]@[v.y as int]
}

/// A grid of `x_size` columns of `y_size` copies of `value`.
pub fn grid_filled<T: Copy>(x_size: u64, y_size: u64, value: T) -> (g: Grid<T>)
    ensures
        grid_shaped(g, x_size, y_size),
        forall|v: Vertex| v.x < x_size && v.y < y_size ==> grid_at(g, v) == value,
{
    let mut g: Grid<T> = Vec::new();
    let mut x: u64 = 0;
    while x < x_size
        invariant
            x <= x_size,
            g@.len() == x,
            forall|i: int| 0 <= i < x ==> (#[trigger] g@[i])@.len() == y_size,
            forall|i: int, j: int| 0 <= i < x && 0 <= j < y_size ==> #[trigger] g@[i]@[j] == value,
        decreases x_size - x,
    {
        let mut col: Vec<T> = Vec::new();
        let mut y: u64 = 0;
        while y < y_size
            invariant
                y <= y_size,
                col@.len() == y,
                forall|j: int| 0 <= j < y ==> col@[j] == value,
            decreases y_size - y,
        {
            col.push(value);
            y = y + 1;
        }
        g.push(col);
        x = x + 1;
    }
    g
}

/// Overwrites the cell of `g` at `v`.
pub fn grid_set<T>(g: &mut Grid<T>, v: Vertex, value: T)
    requires
        v.x < old(g)@.len(),
        v.y < old(g)@[v.x as int]@.len(),
    ensures
        final(g)@.len() == old(g)@.len(),
        forall|x: int| 0 <= x < old(g)@.len() ==> (#[trigger] final(g)@[x])@.len() == old(g)@[x]@.len(),
        forall|w: Vertex|
            w.x < old(g)@.len() && w.y < old(g)@[w.x as int]@.len() ==> #[trigger] grid_at(*final(g), w)
                == if w == v {
                value
            } else {
                grid_at(*old(g), w)
            },
{
    let ghost before = *g;
    let n = g.len();
    assert(v.x < n);
    let x = v.x as usize;
    let m = g[x].len();
    assert(v.y < m);
    let y = v.y as usize;
    g[x][y] = value;
    assert forall|i: int| 0 <= i < before@.len() && i != x implies g@[i] == before@[i] by {}
    assert(g@[x as int]@ == before@[x as int]@.update(y as int, value));
    assert forall|i: int| 0 <= i < before@.len() implies (#[trigger] g@[i])@.len() == before@[i]@.len() by {
        if i != x {
            assert(g@[i] == before@[i]);
        }
    }
}

} // verus!
