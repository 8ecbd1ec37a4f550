//! Local contrast: how a pixel differs from the two rings of pixels around
//! it, and the activation map that is built from that.

use crate::bitmap::{fits_a_vector, Bitmap, Color, Point};
use crate::sequences::lemma_filter_map_step;
use crate::window::{lands_inside, lemma_window_cell, moved, window_offsets, Offset};
use vstd::prelude::*;

verus! {

/// How far apart two samples are.
pub open spec fn abs_diff(a: u8, b: u8) -> u8 {
    if a >= b {
        (a - b) as u8
    } else {
        (b - a) as u8
    }
}

/// How far apart two colours are, channel by channel.
pub open spec fn channel_differences(a: Color, b: Color) -> Color {
    (abs_diff(a.0, b.0), abs_diff(a.1, b.1), abs_diff(a.2, b.2))
}

/// `d` leads to one of the eight cells that touch the centre.
pub open spec fn in_immediate_ring(d: Offset) -> bool {
    d != (0int, 0int) && -1 <= d.0 <= 1 && -1 <= d.1 <= 1
}

/// `d` leads to one of the sixteen cells on the rim of the window of
/// radius 2.
pub open spec fn in_outer_ring(d: Offset) -> bool {
    -2 <= d.0 <= 2 && -2 <= d.1 <= 2 && (d.0 == -2 || d.0 == 2 || d.1 == -2 || d.1 == 2)
}

/// `d` leads to a cell of the chosen ring.
pub open spec fn in_ring(d: Offset, outer: bool) -> bool {
    if outer {
        in_outer_ring(d)
    } else {
        in_immediate_ring(d)
    }
}

/// The differences between the pixel at `p` and those pixels of one ring
/// around it that lie in `m`, in window order.
pub open spec fn ring_differences(m: Bitmap, p: Point, outer: bool) -> Seq<Color> {
    window_offsets(2).filter(
        |d: Offset| in_ring(d, outer) && lands_inside(p, d, m.spec_width(), m.spec_height()),
    ).map_values(|d: Offset| channel_differences(m.at(p), m.at(moved(p, d))))
}

/// The differences between a pixel and its neighbours, ring by ring. The
/// activation of the pixel is the mean over `immediate` of the mean of the
/// three channels, weighted 0.6, plus the same over `outer`, weighted 0.4.
#[derive(Debug, PartialEq, Eq)]
pub struct RingDifferences {
    pub immediate: Vec<Color>,
    pub outer: Vec<Color>,
}

/// The difference of two samples.
pub fn sample_difference(a: u8, b: u8) -> (d: u8)
    ensures
        d == abs_diff(a, b),
{
    if a >= b {
        a - b
    } else {
        b - a
    }
}

/// Compares the pixel at `(x, y)`, which must be one of `buffer`, with each
/// pixel of the five by five window around it that lies in `buffer`, and
/// sorts the differences by ring: the eight cells that touch the centre,
/// and the sixteen beyond.
pub fn get_pixel_differences(buffer: &Bitmap, x: u32, y: u32) -> (differences: RingDifferences)
    requires
        buffer.contains((x, y)),
    ensures
        differences.immediate@ == ring_differences(*buffer, (x, y), false),
        differences.outer@ == ring_differences(*buffer, (x, y), true),
{
    let width = buffer.raw_width();
    let height = buffer.raw_height();
    let pixel = buffer.raw_get(x, y);
    let ghost p: Point = (x, y);
    let ghost cells = window_offsets(2);
    let ghost near = |d: Offset| in_ring(d, false) && lands_inside(p, d, width, height);
    let ghost far = |d: Offset| in_ring(d, true) && lands_inside(p, d, width, height);
    let ghost differ = |d: Offset| channel_differences(buffer.at(p), buffer.at(moved(p, d)));
    let mut immediate: Vec<Color> = Vec::new();
    let mut outer: Vec<Color> = Vec::new();
    proof {
        assert(cells.take(0) =~= Seq::<Offset>::empty());
        assert(cells.take(0).filter(near).map_values(differ) =~= Seq::<Color>::empty());
        assert(cells.take(0).filter(far).map_values(differ) =~= Seq::<Color>::empty());
    }
    let mut x_offset: i64 = -2;
    while x_offset <= 2
        invariant
            -2 <= x_offset <= 3,
            width == buffer.spec_width(),
            height == buffer.spec_height(),
            p == (x, y),
            pixel == buffer.at(p),
            cells == window_offsets(2),
            near == |d: Offset| in_ring(d, false) && lands_inside(p, d, width, height),
            far == |d: Offset| in_ring(d, true) && lands_inside(p, d, width, height),
            differ == |d: Offset| channel_differences(buffer.at(p), buffer.at(moved(p, d))),
            immediate@ == cells.take(5 * (x_offset + 2)).filter(near).map_values(differ),
            outer@ == cells.take(5 * (x_offset + 2)).filter(far).map_values(differ),
        decreases 3 - x_offset,
    {
        let mut y_offset: i64 = -2;
        while y_offset <= 2
            invariant
                -2 <= x_offset <= 2,
                -2 <= y_offset <= 3,
                width == buffer.spec_width(),
                height == buffer.spec_height(),
                p == (x, y),
                pixel == buffer.at(p),
                cells == window_offsets(2),
                near == |d: Offset| in_ring(d, false) && lands_inside(p, d, width, height),
                far == |d: Offset| in_ring(d, true) && lands_inside(p, d, width, height),
                differ == |d: Offset| channel_differences(buffer.at(p), buffer.at(moved(p, d))),
                immediate@ == cells.take(5 * (x_offset + 2) + (y_offset + 2)).filter(
                    near,
                ).map_values(differ),
                outer@ == cells.take(5 * (x_offset + 2) + (y_offset + 2)).filter(far).map_values(
                    differ,
                ),
            decreases 3 - y_offset,
        {
            let ghost k: int = 5 * (x_offset + 2) + (y_offset + 2);
            let ghost d: Offset = (x_offset as int, y_offset as int);
            proof {
                lemma_window_cell(2, k);
                assert(cells[k] == d);
                lemma_filter_map_step(cells, k, near, differ);
                lemma_filter_map_step(cells, k, far, differ);
            }
            let offseted_x: i64 = x as i64 + x_offset;
            let offseted_y: i64 = y as i64 + y_offset;
            if !(x_offset == 0 && y_offset == 0) && 0 <= offseted_x && offseted_x < width as i64
                && 0 <= offseted_y && offseted_y < height as i64 {
                let offseted_pixel = buffer.raw_get(offseted_x as u32, offseted_y as u32);
                let difference: Color = (
                    sample_difference(pixel.0, offseted_pixel.0),
                    sample_difference(pixel.1, offseted_pixel.1),
                    sample_difference(pixel.2, offseted_pixel.2),
                );
                assert(difference == differ(d));
                if x_offset == -2 || x_offset == 2 || y_offset == -2 || y_offset == 2 {
                    outer.push(difference);
                } else {
                    immediate.push(difference);
                }
            }
            y_offset = y_offset + 1;
        }
        x_offset = x_offset + 1;
    }
    proof {
        lemma_window_cell(2, 0);
        assert(cells.take(25) =~= cells);
    }
    RingDifferences { immediate, outer }
}

/// In a bitmap of one colour no pixel differs from any of its neighbours,
/// in either ring.
pub proof fn lemma_uniform_has_no_contrast(m: Bitmap, c: Color, p: Point, outer: bool)
    requires
        forall|q: Point| m.contains(q) ==> #[trigger] m.at(q) == c,
        m.contains(p),
    ensures
        forall|i: int|
            0 <= i < ring_differences(m, p, outer).len() ==> #[trigger] ring_differences(
                m,
                p,
                outer,
            )[i] == (0u8, 0u8, 0u8),
{
    let keep = |d: Offset| in_ring(d, outer) && lands_inside(p, d, m.spec_width(), m.spec_height());
    let kept = window_offsets(2).filter(keep);
    assert forall|i: int| 0 <= i < ring_differences(m, p, outer).len() implies #[trigger] ring_differences(
        m,
        p,
        outer,
    )[i] == (0u8, 0u8, 0u8) by {
        Seq::lemma_filter_pred(window_offsets(2), keep, i);
        assert(keep(kept[i]));
        assert(m.contains(moved(p, kept[i])));
    }
}

/// Builds the activation map of `buffer`: a bitmap of the same size whose
/// pixel at `(x, y)` holds, in each of its three channels, what
/// `difference_function` returns for `buffer` and `(x, y)`. The function
/// must accept every pixel of `buffer`, and a bitmap of that size must be
/// one that can be allocated.
pub fn difference_filter<F: Fn(&Bitmap, u32, u32) -> u8>(
    buffer: &Bitmap,
    difference_function: F,
) -> (filter_buffer: Bitmap)
    requires
        fits_a_vector(buffer.spec_width(), buffer.spec_height()),
        forall|x: u32, y: u32|
            buffer.contains((x, y)) ==> #[trigger] call_requires(
                difference_function,
                (buffer, x, y),
            ),
    ensures
        filter_buffer.same_size(*buffer),
        forall|p: Point|
            buffer.contains(p) ==> call_ensures(
                difference_function,
                (buffer, p.0, p.1),
                (#[trigger] filter_buffer.at(p)).0,
            ) && filter_buffer.at(p).1 == filter_buffer.at(p).0 && filter_buffer.at(p).2
                == filter_buffer.at(p).0,
{
    let width = buffer.raw_width();
    let height = buffer.raw_height();
    let mut filter_buffer = Bitmap::raw_new(width, height);
    let mut y: u32 = 0;
    while y < height
        invariant
            width == buffer.spec_width(),
            height == buffer.spec_height(),
            filter_buffer.same_size(*buffer),
            0 <= y <= height,
            forall|x: u32, y: u32|
                buffer.contains((x, y)) ==> #[trigger] call_requires(
                difference_function,
                (buffer, x, y),
            ),
            forall|p: Point|
                buffer.contains(p) && p.1 < y ==> call_ensures(
                    difference_function,
                    (buffer, p.0, p.1),
                    (#[trigger] filter_buffer.at(p)).0,
                ) && filter_buffer.at(p).1 == filter_buffer.at(p).0 && filter_buffer.at(p).2
                    == filter_buffer.at(p).0,
        decreases height - y,
    {
        let mut x: u32 = 0;
        while x < width
            invariant
                width == buffer.spec_width(),
                height == buffer.spec_height(),
                filter_buffer.same_size(*buffer),
                0 <= y < height,
                0 <= x <= width,
                forall|x: u32, y: u32|
                    buffer.contains((x, y)) ==> #[trigger] call_requires(
                difference_function,
                (buffer, x, y),
            ),
                forall|p: Point|
                    buffer.contains(p) && (p.1 < y || (p.1 == y && p.0 < x)) ==> call_ensures(
                        difference_function,
                        (buffer, p.0, p.1),
                        (#[trigger] filter_buffer.at(p)).0,
                    ) && filter_buffer.at(p).1 == filter_buffer.at(p).0 && filter_buffer.at(p).2
                        == filter_buffer.at(p).0,
            decreases width - x,
        {
            assert(buffer.contains((x, y)));
            let difference = difference_function(buffer, x, y);
            let ghost before = filter_buffer;
            filter_buffer.raw_put(x, y, (difference, difference, difference));
            proof {
                assert forall|p: Point|
                    buffer.contains(p) && (p.1 < y || (p.1 == y && p.0 < x + 1)) implies call_ensures(
                    difference_function,
                    (buffer, p.0, p.1),
                    (#[trigger] filter_buffer.at(p)).0,
                ) && filter_buffer.at(p).1 == filter_buffer.at(p).0 && filter_buffer.at(p).2
                    == filter_buffer.at(p).0 by {
                    if p != (x, y) {
                        assert(filter_buffer.at(p) == before.at(p));
                    }
                }
            }
            x = x + 1;
        }
        y = y + 1;
    }
    filter_buffer
}

} // verus!
