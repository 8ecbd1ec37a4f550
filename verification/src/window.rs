//! The square window that is slid over a pixel's surroundings, and the
//! order in which its cells are visited.

use crate::bitmap::Point;
use vstd::prelude::*;

verus! {

/// A step from one pixel to another: columns, then rows.
pub type Offset = (int, int);

/// The cells of the window of the given radius as offsets from its centre,
/// column by column from the left, each column from its least row offset.
pub open spec fn window_offsets(radius: int) -> Seq<Offset> {
    let side = 2 * radius + 1;
    Seq::new((side * side) as nat, |k: int| (k / side - radius, k % side - radius))
}

/// The window of radius 1 has nine cells and that of radius 2 has
/// twenty-five; cell `k` is where the definition puts it.
pub proof fn lemma_window_cell(radius: int, k: int)
    requires
        radius == 1 && 0 <= k < 9 || radius == 2 && 0 <= k < 25,
    ensures
        window_offsets(radius).len() == if radius == 1 {
            9int
        } else {
            25int
        },
        window_offsets(radius)[k] == (k / (2 * radius + 1) - radius, k % (2 * radius + 1) - radius),
{
    assert(3 * 3 == 9 && 5 * 5 == 25) by (nonlinear_arith);
}

/// `p` moved by `d` is a pixel of a `width` by `height` grid.
pub open spec fn lands_inside(p: Point, d: Offset, width: u32, height: u32) -> bool {
    0 <= p.0 + d.0 < width && 0 <= p.1 + d.1 < height
}

/// `p` moved by `d`.
pub open spec fn moved(p: Point, d: Offset) -> Point {
    ((p.0 + d.0) as u32, (p.1 + d.1) as u32)
}

/// `q` is one of the eight pixels around `p`.
pub open spec fn adjacent(p: Point, q: Point) -> bool {
    p != q && -1 <= q.0 - p.0 <= 1 && -1 <= q.1 - p.1 <= 1
}

} // verus!
