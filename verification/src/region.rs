//! Rectangles of pixel coordinates as finite sets.

use crate::bitmap::Point;
use vstd::prelude::*;
use vstd::set_lib::*;

verus! {

/// The coordinates with column in `[x0, x0 + nx)` and row in
/// `[y0, y0 + ny)`.
pub open spec fn span(x0: int, nx: int, y0: int, ny: int) -> Set<Point> {
    Set::new(|p: Point| x0 <= p.0 < x0 + nx && y0 <= p.1 < y0 + ny)
}

/// A run of `ny` coordinates in one column is a set of `ny` elements.
proof fn lemma_column_size(x: int, y0: int, ny: int)
    requires
        0 <= x <= u32::MAX,
        0 <= y0,
        0 <= ny,
        y0 + ny <= u32::MAX + 1,
    ensures
        span(x, 1, y0, ny).finite(),
        span(x, 1, y0, ny).len() == ny,
    decreases ny,
{
    if ny == 0 {
        assert(span(x, 1, y0, ny) =~= Set::<Point>::empty());
    } else {
        lemma_column_size(x, y0, ny - 1);
        let top: Point = (x as u32, (y0 + ny - 1) as u32);
        assert(span(x, 1, y0, ny) =~= span(x, 1, y0, ny - 1).insert(top));
    }
}

/// A rectangle of `nx` columns and `ny` rows is a set of `nx * ny`
/// elements.
pub proof fn lemma_span_size(x0: int, nx: int, y0: int, ny: int)
    requires
        0 <= x0,
        0 <= nx,
        x0 + nx <= u32::MAX + 1,
        0 <= y0,
        0 <= ny,
        y0 + ny <= u32::MAX + 1,
    ensures
        span(x0, nx, y0, ny).finite(),
        span(x0, nx, y0, ny).len() == nx * ny,
    decreases nx,
{
    if nx == 0 {
        assert(span(x0, nx, y0, ny) =~= Set::<Point>::empty());
        assert(nx * ny == 0) by (nonlinear_arith)
            requires
                nx == 0,
        ;
    } else {
        let left = span(x0, nx - 1, y0, ny);
        let last = span(x0 + nx - 1, 1, y0, ny);
        lemma_span_size(x0, nx - 1, y0, ny);
        lemma_column_size(x0 + nx - 1, y0, ny);
        assert(span(x0, nx, y0, ny) =~= left.union(last));
        assert(left.disjoint(last));
        lemma_set_disjoint_lens(left, last);
        assert((nx - 1) * ny + ny == nx * ny) by (nonlinear_arith);
    }
}

/// A set of coordinates that all lie in a rectangle of `nx` columns and
/// `ny` rows is finite and has at most `nx * ny` elements.
pub proof fn lemma_bounded_by_span(s: Set<Point>, x0: int, nx: int, y0: int, ny: int)
    requires
        0 <= x0,
        0 <= nx,
        x0 + nx <= u32::MAX + 1,
        0 <= y0,
        0 <= ny,
        y0 + ny <= u32::MAX + 1,
        forall|p: Point| s.contains(p) ==> x0 <= p.0 < x0 + nx && y0 <= p.1 < y0 + ny,
    ensures
        s.finite(),
        s.len() <= nx * ny,
{
    lemma_span_size(x0, nx, y0, ny);
    assert(s.subset_of(span(x0, nx, y0, ny)));
    lemma_len_subset(s, span(x0, nx, y0, ny));
}

} // verus!
