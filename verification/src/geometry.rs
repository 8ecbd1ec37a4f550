//! The bounding rectangle of a cluster, its area, and how densely the
//! cluster fills it.

use crate::bitmap::Point;
use crate::region::lemma_bounded_by_span;
use vstd::prelude::*;

verus! {

/// `left`, `right`, `bottom` and `top` are the least and greatest column
/// and the least and greatest row among `pixels`.
pub open spec fn is_bounding_box(
    pixels: Seq<Point>,
    left: u32,
    right: u32,
    bottom: u32,
    top: u32,
) -> bool {
    &&& forall|i: int|
        0 <= i < pixels.len() ==> left <= (#[trigger] pixels[i]).0 <= right && bottom
            <= pixels[i].1 <= top
    &&& exists|i: int| 0 <= i < pixels.len() && (#[trigger] pixels[i]).0 == left
    &&& exists|i: int| 0 <= i < pixels.len() && (#[trigger] pixels[i]).0 == right
    &&& exists|i: int| 0 <= i < pixels.len() && (#[trigger] pixels[i]).1 == bottom
    &&& exists|i: int| 0 <= i < pixels.len() && (#[trigger] pixels[i]).1 == top
}

/// The number of coordinates in the rectangle with the given extremes.
pub open spec fn box_area(left: u32, right: u32, bottom: u32, top: u32) -> int {
    (right - left + 1) * (top - bottom + 1)
}

/// The extremes among `pixels`, as `(left, right, bottom, top)`.
pub open spec fn extremes(pixels: Seq<Point>) -> (u32, u32, u32, u32) {
    choose|e: (u32, u32, u32, u32)| is_bounding_box(pixels, e.0, e.1, e.2, e.3)
}

/// The area of the bounding rectangle of `pixels`.
pub open spec fn bounding_area(pixels: Seq<Point>) -> int {
    let e = extremes(pixels);
    box_area(e.0, e.1, e.2, e.3)
}

/// A cluster with its bounding rectangle. "Top" is the greatest row.
#[derive(Debug, PartialEq, Eq)]
pub struct Line {
    pub pixels: Vec<Point>,
    pub top_left: Point,
    pub top_right: Point,
    pub bottom_left: Point,
    pub bottom_right: Point,
    pub area: u64,
}

impl Line {
    /// The least column.
    pub open spec fn left(&self) -> u32 {
        self.top_left.0
    }

    /// The greatest column.
    pub open spec fn right(&self) -> u32 {
        self.top_right.0
    }

    /// The least row.
    pub open spec fn bottom(&self) -> u32 {
        self.bottom_left.1
    }

    /// The greatest row.
    pub open spec fn top(&self) -> u32 {
        self.top_left.1
    }

    /// How far the greatest column lies from the least.
    pub open spec fn spec_width(&self) -> int {
        self.top_right.0 - self.top_left.0
    }

    /// How far the greatest row lies from the least.
    pub open spec fn spec_height(&self) -> int {
        self.top_left.1 - self.bottom_left.1
    }

    /// The corners cross the extreme columns with the extreme rows of the
    /// pixels, of which there is at least one, and the area is that of the
    /// rectangle they span.
    pub open spec fn wf(&self) -> bool {
        &&& self.pixels@.len() > 0
        &&& is_bounding_box(self.pixels@, self.left(), self.right(), self.bottom(), self.top())
        &&& self.top_left == (self.left(), self.top())
        &&& self.top_right == (self.right(), self.top())
        &&& self.bottom_left == (self.left(), self.bottom())
        &&& self.bottom_right == (self.right(), self.bottom())
        &&& self.area == box_area(self.left(), self.right(), self.bottom(), self.top())
    }

    /// The extremes of a well-formed line are in order.
    pub proof fn lemma_extremes_ordered(&self)
        requires
            self.wf(),
        ensures
            self.left() <= self.right(),
            self.bottom() <= self.top(),
    {
        let pixels = self.pixels@;
        let i = choose|i: int| 0 <= i < pixels.len() && (#[trigger] pixels[i]).0 == self.left();
        assert(self.left() <= pixels[i].0 <= self.right() && self.bottom() <= pixels[i].1
            <= self.top());
    }

    /// Whether this line is well formed: a `Line` built field by field need
    /// not be.
    pub fn is_well_formed(&self) -> (ok: bool)
        ensures
            ok == self.wf(),
    {
        let left = self.top_left.0;
        let right = self.top_right.0;
        let bottom = self.bottom_left.1;
        let top = self.top_left.1;
        if self.pixels.len() == 0 || self.top_right.1 != top || self.bottom_left.0 != left
            || self.bottom_right.0 != right || self.bottom_right.1 != bottom {
            return false;
        }
        let mut touches_left = false;
        let mut touches_right = false;
        let mut touches_bottom = false;
        let mut touches_top = false;
        let mut at: usize = 0;
        while at < self.pixels.len()
            invariant
                0 <= at <= self.pixels@.len(),
                left == self.left(),
                right == self.right(),
                bottom == self.bottom(),
                top == self.top(),
                forall|i: int|
                    0 <= i < at ==> left <= (#[trigger] self.pixels@[i]).0 <= right && bottom
                        <= self.pixels@[i].1 <= top,
                touches_left <==> exists|i: int| 0 <= i < at && (#[trigger] self.pixels@[i]).0 == left,
                touches_right <==> exists|i: int|
                    0 <= i < at && (#[trigger] self.pixels@[i]).0 == right,
                touches_bottom <==> exists|i: int|
                    0 <= i < at && (#[trigger] self.pixels@[i]).1 == bottom,
                touches_top <==> exists|i: int| 0 <= i < at && (#[trigger] self.pixels@[i]).1 == top,
            decreases self.pixels@.len() - at,
        {
            let point = self.pixels[at];
            if point.0 < left || point.0 > right || point.1 < bottom || point.1 > top {
                return false;
            }
            touches_left = touches_left || point.0 == left;
            touches_right = touches_right || point.0 == right;
            touches_bottom = touches_bottom || point.1 == bottom;
            touches_top = touches_top || point.1 == top;
            at = at + 1;
        }
        if !(touches_left && touches_right && touches_bottom && touches_top) {
            return false;
        }
        let columns: u128 = (right - left) as u128 + 1;
        let rows: u128 = (top - bottom) as u128 + 1;
        assert(columns * rows <= 0x1_0000_0000 * 0x1_0000_0000) by (nonlinear_arith)
            requires
                0 <= columns <= 0x1_0000_0000,
                0 <= rows <= 0x1_0000_0000,
        ;
        self.area as u128 == columns * rows
    }

    /// The distance between the extreme columns of a well-formed line: one
    /// less than the number of columns that the rectangle covers.
    pub fn width(&self) -> (w: u32)
        requires
            self.wf(),
        ensures
            w == self.spec_width(),
    {
        proof {
            self.lemma_extremes_ordered();
        }
        self.top_right.0 - self.top_left.0
    }

    /// The distance between the extreme rows of a well-formed line: one
    /// less than the number of rows that the rectangle covers.
    pub fn height(&self) -> (h: u32)
        requires
            self.wf(),
        ensures
            h == self.spec_height(),
    {
        proof {
            self.lemma_extremes_ordered();
        }
        self.top_left.1 - self.bottom_left.1
    }
}

/// The extremes of a cluster are unique.
pub proof fn lemma_extremes_unique(
    pixels: Seq<Point>,
    left: u32,
    right: u32,
    bottom: u32,
    top: u32,
)
    requires
        is_bounding_box(pixels, left, right, bottom, top),
    ensures
        extremes(pixels) == (left, right, bottom, top),
{
    let given = (left, right, bottom, top);
    assert(is_bounding_box(pixels, given.0, given.1, given.2, given.3));
    let e = extremes(pixels);
    assert(is_bounding_box(pixels, e.0, e.1, e.2, e.3));
}

/// A cluster of at least one pixel has extremes.
pub proof fn lemma_extremes_exist(pixels: Seq<Point>)
    requires
        pixels.len() > 0,
    ensures
        is_bounding_box(
            pixels,
            extremes(pixels).0,
            extremes(pixels).1,
            extremes(pixels).2,
            extremes(pixels).3,
        ),
    decreases pixels.len(),
{
    let last = pixels.last();
    if pixels.len() == 1 {
        let e = (last.0, last.0, last.1, last.1);
        assert(pixels[0] == last);
        assert(is_bounding_box(pixels, e.0, e.1, e.2, e.3));
    } else {
        let init = pixels.drop_last();
        lemma_extremes_exist(init);
        let i = extremes(init);
        let e = (
            if last.0 < i.0 {
                last.0
            } else {
                i.0
            },
            if last.0 > i.1 {
                last.0
            } else {
                i.1
            },
            if last.1 < i.2 {
                last.1
            } else {
                i.2
            },
            if last.1 > i.3 {
                last.1
            } else {
                i.3
            },
        );
        let l = choose|k: int| 0 <= k < init.len() && (#[trigger] init[k]).0 == i.0;
        let r = choose|k: int| 0 <= k < init.len() && (#[trigger] init[k]).0 == i.1;
        let b = choose|k: int| 0 <= k < init.len() && (#[trigger] init[k]).1 == i.2;
        let t = choose|k: int| 0 <= k < init.len() && (#[trigger] init[k]).1 == i.3;
        let n = pixels.len() - 1;
        assert(pixels[n] == last);
        assert(pixels[l] == init[l] && pixels[r] == init[r] && pixels[b] == init[b] && pixels[t]
            == init[t]);
        assert forall|k: int| 0 <= k < pixels.len() implies e.0 <= (#[trigger] pixels[k]).0 <= e.1
            && e.2 <= pixels[k].1 <= e.3 by {
            if k < n {
                assert(pixels[k] == init[k]);
            }
        }
        assert(is_bounding_box(pixels, e.0, e.1, e.2, e.3));
    }
}

/// The bounding rectangle of pixels of an image has an area that a `u64`
/// holds: a coordinate that counts columns or rows in 32 bits is less than
/// `u32::MAX`.
pub proof fn lemma_bounding_area_fits(pixels: Seq<Point>)
    requires
        pixels.len() > 0,
        forall|i: int|
            0 <= i < pixels.len() ==> (#[trigger] pixels[i]).0 < u32::MAX && pixels[i].1 < u32::MAX,
    ensures
        bounding_area(pixels) <= u64::MAX,
{
    lemma_extremes_exist(pixels);
    let e = extremes(pixels);
    let l = choose|k: int| 0 <= k < pixels.len() && (#[trigger] pixels[k]).0 == e.0;
    let r = choose|k: int| 0 <= k < pixels.len() && (#[trigger] pixels[k]).0 == e.1;
    let b = choose|k: int| 0 <= k < pixels.len() && (#[trigger] pixels[k]).1 == e.2;
    let t = choose|k: int| 0 <= k < pixels.len() && (#[trigger] pixels[k]).1 == e.3;
    assert(e.0 <= pixels[r].0 && pixels[l].0 <= e.1 && e.2 <= pixels[t].1 && pixels[b].1 <= e.3);
    assert((e.1 - e.0 + 1) * (e.3 - e.2 + 1) <= 0xffff_ffff * 0xffff_ffff) by (nonlinear_arith)
        requires
            0 <= e.1 - e.0 + 1 <= 0xffff_ffff,
            0 <= e.3 - e.2 + 1 <= 0xffff_ffff,
    ;
}

/// A cluster that names no pixel twice has at least one pixel and at most
/// as many as its bounding rectangle has room for: its density lies above
/// 0 and does not exceed 1.
pub proof fn lemma_density_at_most_one(line: Line)
    requires
        line.wf(),
        line.pixels@.no_duplicates(),
    ensures
        0 < line.pixels@.len() <= line.area,
{
    let pixels = line.pixels@;
    assert forall|p: Point| pixels.to_set().contains(p) implies line.left() <= p.0 < line.left() + (
    line.right() - line.left() + 1) && line.bottom() <= p.1 < line.bottom() + (line.top()
        - line.bottom() + 1) by {
        let i = choose|i: int| 0 <= i < pixels.len() && pixels[i] == p;
        assert(line.left() <= pixels[i].0 <= line.right());
    }
    let i = choose|i: int| 0 <= i < pixels.len() && (#[trigger] pixels[i]).0 == line.left();
    assert(line.left() <= pixels[i].0 <= line.right() && line.bottom() <= pixels[i].1
        <= line.top());
    lemma_bounded_by_span(
        pixels.to_set(),
        line.left() as int,
        line.right() - line.left() + 1,
        line.bottom() as int,
        line.top() - line.bottom() + 1,
    );
    pixels.unique_seq_to_set();
}

/// Gives each cluster its bounding rectangle: the four corners, which
/// cross the extreme columns with the extreme rows, and the area. The
/// clusters keep their order and their pixels. No cluster may be empty,
/// and the area of each must be one that a `u64` holds.
pub fn get_lines_stats(lines_points: Vec<Vec<Point>>) -> (lines_stats: Vec<Line>)
    requires
        forall|i: int|
            0 <= i < lines_points@.len() ==> (#[trigger] lines_points@[i])@.len() > 0
                && bounding_area(lines_points@[i]@) <= u64::MAX,
    ensures
        lines_stats@.len() == lines_points@.len(),
        forall|i: int|
            0 <= i < lines_stats@.len() ==> (#[trigger] lines_stats@[i]).pixels@
                == lines_points@[i]@ && lines_stats@[i].wf(),
        forall|i: int|
            0 <= i < lines_stats@.len() && lines_points@[i]@.no_duplicates() ==> 0 < (
            #[trigger] lines_stats@[i]).pixels@.len() <= lines_stats@[i].area,
{
    let ghost clusters = lines_points@;
    let mut lines_stats: Vec<Line> = Vec::new();
    for line_points in it: lines_points
        invariant
            it.seq() == clusters,
            forall|i: int|
                0 <= i < clusters.len() ==> (#[trigger] clusters[i])@.len() > 0 && bounding_area(
                    clusters[i]@,
                ) <= u64::MAX,
            lines_stats@.len() == it.index(),
            forall|i: int|
                0 <= i < lines_stats@.len() ==> (#[trigger] lines_stats@[i]).pixels@
                    == clusters[i]@ && lines_stats@[i].wf(),
    {
        let ghost pixels = line_points@;
        assert(pixels == clusters[it.index() as int]@);
        let first = line_points[0];
        let mut rightmost_point: Point = first;
        let mut leftmost_point: Point = first;
        let mut top_point: Point = first;
        let mut bottom_point: Point = first;
        let mut at: usize = 0;
        while at < line_points.len()
            invariant
                pixels == line_points@,
                pixels.len() > 0,
                0 <= at <= pixels.len(),
                forall|i: int|
                    0 <= i < at ==> leftmost_point.0 <= (#[trigger] pixels[i]).0
                        <= rightmost_point.0 && bottom_point.1 <= pixels[i].1 <= top_point.1,
                exists|i: int| 0 <= i < pixels.len() && (#[trigger] pixels[i]).0 == leftmost_point.0,
                exists|i: int|
                    0 <= i < pixels.len() && (#[trigger] pixels[i]).0 == rightmost_point.0,
                exists|i: int| 0 <= i < pixels.len() && (#[trigger] pixels[i]).1 == bottom_point.1,
                exists|i: int| 0 <= i < pixels.len() && (#[trigger] pixels[i]).1 == top_point.1,
            decreases pixels.len() - at,
        {
            let point = line_points[at];
            if point.0 > rightmost_point.0 {
                rightmost_point = point;
            }
            if point.0 < leftmost_point.0 {
                leftmost_point = point;
            }
            if point.1 > top_point.1 {
                top_point = point;
            }
            if point.1 < bottom_point.1 {
                bottom_point = point;
            }
            at = at + 1;
        }
        proof {
            assert(is_bounding_box(
                pixels,
                leftmost_point.0,
                rightmost_point.0,
                bottom_point.1,
                top_point.1,
            ));
            lemma_extremes_unique(
                pixels,
                leftmost_point.0,
                rightmost_point.0,
                bottom_point.1,
                top_point.1,
            );
            assert(pixels[0].0 <= rightmost_point.0 && leftmost_point.0 <= pixels[0].0);
            assert(pixels[0].1 <= top_point.1 && bottom_point.1 <= pixels[0].1);
        }
        let dx: u64 = (rightmost_point.0 - leftmost_point.0) as u64;
        let dy: u64 = (top_point.1 - bottom_point.1) as u64;
        let area: u64 = (dx + 1) * (dy + 1);
        lines_stats.push(
            Line {
                pixels: line_points,
                top_left: (leftmost_point.0, top_point.1),
                top_right: (rightmost_point.0, top_point.1),
                bottom_left: (leftmost_point.0, bottom_point.1),
                bottom_right: (rightmost_point.0, bottom_point.1),
                area: area,
            },
        );
    }
    proof {
        assert forall|i: int|
            0 <= i < lines_stats@.len() && lines_points@[i]@.no_duplicates() implies 0 < (
        #[trigger] lines_stats@[i]).pixels@.len() <= lines_stats@[i].area by {
            lemma_density_at_most_one(lines_stats@[i]);
        }
    }
    lines_stats
}

} // verus!
