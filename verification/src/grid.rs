use vstd::prelude::*;
use crate::cell::TypeCase;

verus! {

/// A rectangular grid of cells, `height` rows of `width` cells each.
pub open spec fn grid_wf(g: Seq<Vec<TypeCase>>, width: int, height: int) -> bool {
    &&& g.len() == height
    &&& forall|y: int| 0 <= y < height ==> (#[trigger] g[y])@.len() == width
}

/// Whether `(x, y)` lies on a `width` by `height` grid.
pub open spec fn on_grid(x: int, y: int, width: int, height: int) -> bool {
    0 <= x < width && 0 <= y < height
}

/// The cell of `g` at column `x`, row `y`.
pub open spec fn cell_at(g: Seq<Vec<TypeCase>>, x: int, y: int) -> TypeCase {
    g[y]@[x]
}

/// Manhattan distance between two coordinates.
pub open spec fn manhattan(x1: int, y1: int, x2: int, y2: int) -> int {
    abs_diff(x1, x2) + abs_diff(y1, y2)
}

/// |a - b| over the mathematical integers.
pub open spec fn abs_diff(a: int, b: int) -> int {
    if a >= b {
        a - b
    } else {
        b - a
    }
}

/// Writes one cell of a rectangular grid.
pub fn grid_set(g: &mut Vec<Vec<TypeCase>>, x: usize, y: usize, width: usize, height: usize, c: TypeCase)
    requires
        grid_wf(old(g)@, width as int, height as int),
        x < width,
        y < height,
    ensures
        grid_wf(final(g)@, width as int, height as int),
        cell_at(final(g)@, x as int, y as int) == c,
        forall|a: int, b: int|
            on_grid(a, b, width as int, height as int) && (a != x || b != y)
                ==> cell_at(final(g)@, a, b) == cell_at(old(g)@, a, b),
        final(g)@.len() == old(g)@.len(),
{
    let row = &mut g[y];
    row[x] = c;
}

} // verus!
