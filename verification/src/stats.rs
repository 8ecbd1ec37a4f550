//! Descriptive statistics of an activation map.

use crate::bitmap::{Bitmap, Point};
use crate::region::lemma_bounded_by_span;
use vstd::prelude::*;

verus! {

/// The mean of `count` values that add up to `total`, kept exact.
#[derive(Debug, Clone, Copy, PartialEq, Eq)]
pub struct Mean {
    pub total: u128,
    pub count: u64,
}

/// What an activation map holds: the greatest and the least activation,
/// the number of pixels with an activation above zero, and the mean
/// activation of those pixels, which is `None` where there is none.
#[derive(Debug, Clone, Copy, PartialEq, Eq)]
pub struct ActivationStats {
    pub max: u8,
    pub min: u8,
    pub activation_count: u64,
    pub avg_activation: Option<Mean>,
}

/// The activation of `m` at `p`: its first channel.
pub open spec fn activation(m: Bitmap, p: Point) -> u8 {
    m.at(p).0
}

/// The pixels of `m` with an activation above zero.
pub open spec fn positive_pixels(m: Bitmap) -> Set<Point> {
    Set::new(|p: Point| m.contains(p) && activation(m, p) > 0)
}

/// The activations of the first `n` pixels of row `y`, added up.
pub open spec fn row_total(m: Bitmap, y: u32, n: nat) -> int
    decreases n,
{
    if n == 0 {
        0
    } else {
        row_total(m, y, (n - 1) as nat) + activation(m, ((n - 1) as u32, y))
    }
}

/// The activations of the first `n` rows, added up.
pub open spec fn rows_total(m: Bitmap, n: nat) -> int
    decreases n,
{
    if n == 0 {
        0
    } else {
        rows_total(m, (n - 1) as nat) + row_total(m, (n - 1) as u32, m.spec_width() as nat)
    }
}

/// The activations of all pixels, added up.
pub open spec fn total_activation(m: Bitmap) -> int {
    rows_total(m, m.spec_height() as nat)
}

/// The mean activation of the pixels of `m` with an activation above zero;
/// there is none where no pixel has one.
pub open spec fn mean_activation(m: Bitmap) -> Option<Mean> {
    if positive_pixels(m).len() == 0 {
        None
    } else {
        Some(Mean { total: total_activation(m) as u128, count: positive_pixels(m).len() as u64 })
    }
}

/// `max` is the greatest activation of `m`, or 0 for a map without
/// pixels.
pub open spec fn is_greatest(m: Bitmap, max: u8) -> bool {
    &&& forall|p: Point| m.contains(p) ==> #[trigger] activation(m, p) <= max
    &&& max == 0 || exists|p: Point| m.contains(p) && #[trigger] activation(m, p) == max
}

/// `min` is the least activation of `m`, or 255 for a map without pixels.
pub open spec fn is_least(m: Bitmap, min: u8) -> bool {
    &&& forall|p: Point| m.contains(p) ==> #[trigger] activation(m, p) >= min
    &&& min == 255 || exists|p: Point| m.contains(p) && #[trigger] activation(m, p) == min
}

/// `p` is met before `(x, y)` where rows are read from the top and each
/// row from the left.
spec fn read_before(p: Point, x: int, y: int) -> bool {
    p.1 < y || (p.1 == y && p.0 < x)
}

/// The pixels with an activation above zero among those read before
/// `(x, y)`.
spec fn positive_before(m: Bitmap, x: int, y: int) -> Set<Point> {
    Set::new(|p: Point| m.contains(p) && activation(m, p) > 0 && read_before(p, x, y))
}

/// The greatest and least activation of `buffer`, how many of its pixels
/// have an activation above zero, and their mean activation. The
/// activation of a pixel is its first channel.
pub fn get_activation_stats(buffer: &Bitmap) -> (stats: ActivationStats)
    ensures
        is_greatest(*buffer, stats.max),
        is_least(*buffer, stats.min),
        stats.activation_count == positive_pixels(*buffer).len(),
        stats.avg_activation == mean_activation(*buffer),
        total_activation(*buffer) <= 255 * stats.activation_count,
{
    let width = buffer.raw_width();
    let height = buffer.raw_height();
    let mut max: u8 = 0;
    let mut min: u8 = 255;
    let mut activation_count: u64 = 0;
    let mut total: u128 = 0;
    let mut y: u32 = 0;
    proof {
        assert(positive_before(*buffer, 0, 0) =~= Set::<Point>::empty());
    }
    while y < height
        invariant
            width == buffer.spec_width(),
            height == buffer.spec_height(),
            0 <= y <= height,
            forall|p: Point|
                buffer.contains(p) && read_before(p, 0, y as int) ==> min <= #[trigger] activation(
                    *buffer,
                    p,
                ) <= max,
            max == 0 || exists|p: Point| buffer.contains(p) && #[trigger] activation(*buffer, p) == max,
            min == 255 || exists|p: Point|
                buffer.contains(p) && #[trigger] activation(*buffer, p) == min,
            activation_count == positive_before(*buffer, 0, y as int).len(),
            positive_before(*buffer, 0, y as int).finite(),
            total == rows_total(*buffer, y as nat),
            total <= 255 * activation_count,
        decreases height - y,
    {
        let mut x: u32 = 0;
        while x < width
            invariant
                width == buffer.spec_width(),
                height == buffer.spec_height(),
                0 <= y < height,
                0 <= x <= width,
                forall|p: Point|
                    buffer.contains(p) && read_before(p, x as int, y as int) ==> min
                        <= #[trigger] activation(*buffer, p) <= max,
                max == 0 || exists|p: Point|
                    buffer.contains(p) && #[trigger] activation(*buffer, p) == max,
                min == 255 || exists|p: Point|
                    buffer.contains(p) && #[trigger] activation(*buffer, p) == min,
                activation_count == positive_before(*buffer, x as int, y as int).len(),
                positive_before(*buffer, x as int, y as int).finite(),
                total == rows_total(*buffer, y as nat) + row_total(*buffer, y, x as nat),
                total <= 255 * activation_count,
            decreases width - x,
        {
            let pixel = buffer.raw_get(x, y);
            let ghost here: Point = (x, y);
            let ghost seen = positive_before(*buffer, x as int, y as int);
            let ghost next = positive_before(*buffer, x + 1, y as int);
            assert(activation(*buffer, here) == pixel.0);
            if pixel.0 > max {
                max = pixel.0;
            }
            if pixel.0 < min {
                min = pixel.0;
            }
            if pixel.0 > 0 {
                proof {
                    assert(next =~= seen.insert(here));
                    lemma_bounded_by_span(next, 0, width as int, 0, height as int);
                    assert(width * height <= 0xffff_ffff * 0xffff_ffff) by (nonlinear_arith)
                        requires
                            0 <= width <= 0xffff_ffff,
                            0 <= height <= 0xffff_ffff,
                    ;
                }
                activation_count = activation_count + 1;
                total = total + pixel.0 as u128;
            } else {
                proof {
                    assert(next =~= seen);
                }
            }
            x = x + 1;
        }
        proof {
            assert(positive_before(*buffer, 0, y + 1) =~= positive_before(
                *buffer,
                width as int,
                y as int,
            ));
        }
        y = y + 1;
    }
    proof {
        assert(positive_before(*buffer, 0, height as int) =~= positive_pixels(*buffer));
    }
    let avg_activation = if activation_count == 0 {
        None
    } else {
        Some(Mean { total: total, count: activation_count })
    };
    ActivationStats { max, min, activation_count, avg_activation }
}

} // verus!
