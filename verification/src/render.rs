//! Painting a line and the outline of its rectangle onto a bitmap.

use crate::bitmap::{Bitmap, Color, Point};
use crate::classify::lies_within;
use crate::geometry::Line;
use vstd::prelude::*;

verus! {

/// The colour in which the pixels of a line are painted: white.
pub open spec fn line_color() -> Color {
    (255u8, 255u8, 255u8)
}

/// The colour in which the outline of a rectangle is painted: green.
pub open spec fn outline_color() -> Color {
    (0u8, 255u8, 0u8)
}

/// `p` lies on one of the four runs between the corners of `line`.
pub open spec fn on_outline(line: Line, p: Point) -> bool {
    ||| p.1 == line.top_left.1 && line.top_left.0 <= p.0 <= line.top_right.0
    ||| p.1 == line.bottom_left.1 && line.bottom_left.0 <= p.0 <= line.bottom_right.0
    ||| p.0 == line.top_left.0 && line.bottom_left.1 <= p.1 <= line.top_left.1
    ||| p.0 == line.top_right.0 && line.bottom_right.1 <= p.1 <= line.top_right.1
}

/// `after` is `before` with colour `c` at the pixels that `painted` holds.
pub open spec fn painted_over(
    before: Bitmap,
    after: Bitmap,
    painted: spec_fn(Point) -> bool,
    c: Color,
) -> bool {
    &&& after.same_size(before)
    &&& forall|p: Point|
        before.contains(p) ==> #[trigger] after.at(p) == if painted(p) {
            c
        } else {
            before.at(p)
        }
}

/// Paints the pixels of `line`, which must lie within `buffer`, white.
pub fn draw_line(buffer: Bitmap, line: &Line) -> (drawn: Bitmap)
    requires
        lies_within(*line, buffer),
    ensures
        painted_over(buffer, drawn, |p: Point| line.pixels@.contains(p), line_color()),
{
    let ghost start = buffer;
    let mut buffer = buffer;
    let mut point: usize = 0;
    while point < line.pixels.len()
        invariant
            lies_within(*line, start),
            0 <= point <= line.pixels@.len(),
            painted_over(
                start,
                buffer,
                |p: Point| line.pixels@.take(point as int).contains(p),
                line_color(),
            ),
        decreases line.pixels@.len() - point,
    {
        let x = line.pixels[point].0;
        let y = line.pixels[point].1;
        let ghost before = buffer;
        buffer.raw_put(x, y, (255, 255, 255));
        proof {
            let shorter = line.pixels@.take(point as int);
            let longer = line.pixels@.take(point + 1);
            assert(longer =~= shorter.push((x, y)));
            crate::sequences::lemma_push_contains(shorter, (x, y));
            assert forall|p: Point| start.contains(p) implies #[trigger] buffer.at(p) == if longer.contains(
                p,
            ) {
                line_color()
            } else {
                start.at(p)
            } by {
                assert(before.at(p) == if shorter.contains(p) {
                    line_color()
                } else {
                    start.at(p)
                });
            }
        }
        point = point + 1;
    }
    proof {
        assert(line.pixels@.take(point as int) =~= line.pixels@);
    }
    buffer
}

/// Paints the pixels of row `y` from column `from` to column `to`.
fn paint_row(buffer: &mut Bitmap, from: u32, to: u32, y: u32, c: Color)
    requires
        y < old(buffer).spec_height(),
        to < old(buffer).spec_width(),
    ensures
        painted_over(*old(buffer), *final(buffer), |p: Point| p.1 == y && from <= p.0 <= to, c),
{
    let ghost start = *buffer;
    let mut x: u32 = from;
    while x <= to
        invariant
            from <= x,
            from <= to ==> x <= to + 1,
            from > to ==> x == from,
            y < start.spec_height(),
            to < start.spec_width(),
            painted_over(start, *buffer, |p: Point| p.1 == y && from <= p.0 < x, c),
        decreases to + 1 - x,
    {
        let ghost before = *buffer;
        buffer.raw_put(x, y, c);
        proof {
            assert forall|p: Point| start.contains(p) implies #[trigger] buffer.at(p) == if p.1
                == y && from <= p.0 < x + 1 {
                c
            } else {
                start.at(p)
            } by {
                assert(before.at(p) == if p.1 == y && from <= p.0 < x {
                    c
                } else {
                    start.at(p)
                });
            }
        }
        x = x + 1;
    }
}

/// Paints the pixels of column `x` from row `from` to row `to`.
fn paint_column(buffer: &mut Bitmap, x: u32, from: u32, to: u32, c: Color)
    requires
        x < old(buffer).spec_width(),
        to < old(buffer).spec_height(),
    ensures
        painted_over(*old(buffer), *final(buffer), |p: Point| p.0 == x && from <= p.1 <= to, c),
{
    let ghost start = *buffer;
    let mut y: u32 = from;
    while y <= to
        invariant
            from <= y,
            from <= to ==> y <= to + 1,
            from > to ==> y == from,
            x < start.spec_width(),
            to < start.spec_height(),
            painted_over(start, *buffer, |p: Point| p.0 == x && from <= p.1 < y, c),
        decreases to + 1 - y,
    {
        let ghost before = *buffer;
        buffer.raw_put(x, y, c);
        proof {
            assert forall|p: Point| start.contains(p) implies #[trigger] buffer.at(p) == if p.0
                == x && from <= p.1 < y + 1 {
                c
            } else {
                start.at(p)
            } by {
                assert(before.at(p) == if p.0 == x && from <= p.1 < y {
                    c
                } else {
                    start.at(p)
                });
            }
        }
        y = y + 1;
    }
}

/// Paints the outline of the rectangle of `line` green, one pixel wide:
/// the two rows and the two columns between its corners. The line must be
/// well formed and lie within `buffer`.
pub fn draw_bounding_box(buffer: Bitmap, line: &Line) -> (drawn: Bitmap)
    requires
        line.wf(),
        lies_within(*line, buffer),
    ensures
        painted_over(buffer, drawn, |p: Point| on_outline(*line, p), outline_color()),
{
    let ghost start = buffer;
    let mut buffer = buffer;
    proof {
        let pixels = line.pixels@;
        let l = choose|i: int| 0 <= i < pixels.len() && (#[trigger] pixels[i]).0 == line.left();
        let r = choose|i: int| 0 <= i < pixels.len() && (#[trigger] pixels[i]).0 == line.right();
        let b = choose|i: int| 0 <= i < pixels.len() && (#[trigger] pixels[i]).1 == line.bottom();
        let t = choose|i: int| 0 <= i < pixels.len() && (#[trigger] pixels[i]).1 == line.top();
        assert(start.contains(pixels[l]) && start.contains(pixels[r]) && start.contains(
            pixels[b],
        ) && start.contains(pixels[t]));
    }
    paint_row(&mut buffer, line.top_left.0, line.top_right.0, line.top_left.1, (0, 255, 0));
    let ghost first = buffer;
    paint_row(&mut buffer, line.bottom_left.0, line.bottom_right.0, line.bottom_left.1, (0, 255, 0));
    let ghost second = buffer;
    paint_column(&mut buffer, line.top_left.0, line.bottom_left.1, line.top_left.1, (0, 255, 0));
    let ghost third = buffer;
    paint_column(&mut buffer, line.top_right.0, line.bottom_right.1, line.top_right.1, (0, 255, 0));
    proof {
        assert forall|p: Point| start.contains(p) implies #[trigger] buffer.at(p) == if on_outline(
            *line,
            p,
        ) {
            outline_color()
        } else {
            start.at(p)
        } by {
            assert(first.contains(p) && second.contains(p) && third.contains(p));
            let _ = first.at(p);
            let _ = second.at(p);
            let _ = third.at(p);
        }
    }
    buffer
}

} // verus!
