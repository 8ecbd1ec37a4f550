//! Telling text from other shapes by the colours under a line: text is
//! taken to show exactly two tones, the stroke and its background.

use crate::bitmap::{Bitmap, Color, Point};
use crate::geometry::Line;
use crate::sequences::lemma_push_contains;
use vstd::prelude::*;

verus! {

/// The greatest distance between two colours of one bucket.
pub const DIFFERENCE_COLOR_THRESH: u32 = 30;

/// A representative colour and how many pixels were counted under it.
pub type Bucket = (Color, u64);

/// The square of the Euclidean distance between two colours.
pub open spec fn distance_squared(a: Color, b: Color) -> int {
    (a.0 - b.0) * (a.0 - b.0) + (a.1 - b.1) * (a.1 - b.1) + (a.2 - b.2) * (a.2 - b.2)
}

/// The Euclidean distance between `a` and `b` is at most
/// `DIFFERENCE_COLOR_THRESH`.
pub open spec fn is_close(a: Color, b: Color) -> bool {
    distance_squared(a, b) <= DIFFERENCE_COLOR_THRESH * DIFFERENCE_COLOR_THRESH
}

/// Bucket `i` is the first whose representative is close to `c`.
pub open spec fn is_first_close(buckets: Seq<(Color, nat)>, c: Color, i: int) -> bool {
    &&& 0 <= i < buckets.len()
    &&& is_close(c, buckets[i].0)
    &&& forall|j: int| 0 <= j < i ==> !is_close(c, (#[trigger] buckets[j]).0)
}

/// The buckets after one more pixel of colour `c`: the first bucket close
/// to `c` counts one more, or, where none is close, a new bucket of `c`
/// alone is appended.
pub open spec fn absorb(buckets: Seq<(Color, nat)>, c: Color) -> Seq<(Color, nat)> {
    if exists|i: int| is_first_close(buckets, c, i) {
        let i = choose|i: int| is_first_close(buckets, c, i);
        buckets.update(i, (buckets[i].0, buckets[i].1 + 1))
    } else {
        buckets.push((c, 1))
    }
}

/// The buckets that a run of colours falls into, taken one by one.
pub open spec fn color_buckets(colors: Seq<Color>) -> Seq<(Color, nat)>
    decreases colors.len(),
{
    if colors.len() == 0 {
        Seq::empty()
    } else {
        absorb(color_buckets(colors.drop_last()), colors.last())
    }
}

/// The colours of `buffer` under `pixels`, in their order.
pub open spec fn colors_under(pixels: Seq<Point>, buffer: Bitmap) -> Seq<Color> {
    pixels.map_values(|p: Point| buffer.at(p))
}

/// Buckets with their counts as natural numbers.
pub open spec fn bucket_view(buckets: Seq<Bucket>) -> Seq<(Color, nat)> {
    buckets.map_values(|b: Bucket| (b.0, b.1 as nat))
}

/// Bucket `i` is the first of those with the greatest count, and that
/// count is not zero.
pub open spec fn leads(buckets: Seq<(Color, nat)>, i: int) -> bool {
    &&& 0 <= i < buckets.len()
    &&& buckets[i].1 > 0
    &&& forall|j: int| 0 <= j < buckets.len() ==> (#[trigger] buckets[j]).1 <= buckets[i].1
    &&& forall|j: int| 0 <= j < i ==> (#[trigger] buckets[j]).1 < buckets[i].1
}

/// The representative of the leading bucket; black where no bucket has
/// counted a pixel.
pub open spec fn most_common(buckets: Seq<(Color, nat)>) -> Color {
    if exists|i: int| leads(buckets, i) {
        buckets[choose|i: int| leads(buckets, i)].0
    } else {
        (0u8, 0u8, 0u8)
    }
}

/// The colours under `line` fall into exactly two buckets.
pub open spec fn is_text(line: Line, buffer: Bitmap) -> bool {
    color_buckets(colors_under(line.pixels@, buffer)).len() == 2
}

/// The colour of the leading bucket under `line`.
pub open spec fn stroke_color_of(line: Line, buffer: Bitmap) -> Color {
    most_common(color_buckets(colors_under(line.pixels@, buffer)))
}

/// Every pixel of `line` is a pixel of `buffer`.
pub open spec fn lies_within(line: Line, buffer: Bitmap) -> bool {
    forall|i: int| 0 <= i < line.pixels@.len() ==> buffer.contains(#[trigger] line.pixels@[i])
}

/// A line taken for text, with the colour of its stroke. The text itself
/// is not read: `text` is empty.
#[derive(Debug, PartialEq, Eq)]
pub struct TextLine<'a> {
    pub line: &'a Line,
    pub stroke_color: Color,
    pub text: String,
}

/// Whether every pixel of `line` is a pixel of `buffer`.
pub fn line_lies_within(line: &Line, buffer: &Bitmap) -> (inside: bool)
    ensures
        inside == lies_within(*line, *buffer),
{
    let width = buffer.raw_width();
    let height = buffer.raw_height();
    let mut at: usize = 0;
    while at < line.pixels.len()
        invariant
            width == buffer.spec_width(),
            height == buffer.spec_height(),
            0 <= at <= line.pixels@.len(),
            forall|i: int| 0 <= i < at ==> buffer.contains(#[trigger] line.pixels@[i]),
        decreases line.pixels@.len() - at,
    {
        let point = line.pixels[at];
        if point.0 >= width || point.1 >= height {
            assert(!buffer.contains(line.pixels@[at as int]));
            return false;
        }
        at = at + 1;
    }
    true
}

/// Whether two colours are close enough for one bucket.
pub fn close_colors(a: Color, b: Color) -> (close: bool)
    ensures
        close == is_close(a, b),
{
    let dr: i32 = a.0 as i32 - b.0 as i32;
    let dg: i32 = a.1 as i32 - b.1 as i32;
    let db: i32 = a.2 as i32 - b.2 as i32;
    assert(0 <= dr * dr <= 65025 && 0 <= dg * dg <= 65025 && 0 <= db * db <= 65025)
        by (nonlinear_arith)
        requires
            -255 <= dr <= 255,
            -255 <= dg <= 255,
            -255 <= db <= 255,
    ;
    let limit: i32 = (DIFFERENCE_COLOR_THRESH * DIFFERENCE_COLOR_THRESH) as i32;
    dr * dr + dg * dg + db * db <= limit
}

/// Counts the colours under `line`, which must lie within `buffer`, in
/// buckets. A colour goes to the first bucket whose representative is no
/// further than `DIFFERENCE_COLOR_THRESH` from it; where there is none it
/// opens a bucket of its own, behind the others.
pub fn get_line_colors(line: &Line, buffer: &Bitmap) -> (color_freqs: Vec<Bucket>)
    requires
        lies_within(*line, *buffer),
    ensures
        bucket_view(color_freqs@) == color_buckets(colors_under(line.pixels@, *buffer)),
{
    let ghost colors = colors_under(line.pixels@, *buffer);
    let mut color_freqs: Vec<Bucket> = Vec::new();
    let mut at: usize = 0;
    assert(bucket_view(color_freqs@) =~= color_buckets(colors.take(0)));
    while at < line.pixels.len()
        invariant
            lies_within(*line, *buffer),
            colors == colors_under(line.pixels@, *buffer),
            0 <= at <= line.pixels@.len(),
            bucket_view(color_freqs@) == color_buckets(colors.take(at as int)),
            forall|i: int| 0 <= i < color_freqs@.len() ==> (#[trigger] color_freqs@[i]).1 <= at,
        decreases line.pixels@.len() - at,
    {
        let pixel = line.pixels[at];
        let curr_color = buffer.raw_get(pixel.0, pixel.1);
        let ghost before = bucket_view(color_freqs@);
        proof {
            assert(colors.take(at + 1).drop_last() =~= colors.take(at as int));
            assert(colors.take(at + 1).last() == curr_color);
        }
        let mut match_found = false;
        let mut i: usize = 0;
        while i < color_freqs.len() && !match_found
            invariant
                0 <= i <= color_freqs@.len(),
                at < line.pixels.len(),
                !match_found ==> bucket_view(color_freqs@) == before,
                !match_found ==> forall|j: int|
                    0 <= j < i ==> !is_close(curr_color, (#[trigger] before[j]).0),
                match_found ==> bucket_view(color_freqs@) == absorb(before, curr_color),
                forall|j: int|
                    0 <= j < color_freqs@.len() ==> (#[trigger] color_freqs@[j]).1 <= if match_found {
                        at + 1
                    } else {
                        at as int
                    },
            decreases color_freqs@.len() - i + if match_found { 0int } else { 1int },
        {
            let other = color_freqs[i];
            assert(before[i as int] == (other.0, other.1 as nat));
            if close_colors(curr_color, other.0) {
                match_found = true;
                color_freqs.set(i, (other.0, other.1 + 1));
                proof {
                    assert(is_first_close(before, curr_color, i as int));
                    let chosen = choose|k: int| is_first_close(before, curr_color, k);
                    assert(chosen == i) by {
                        assert(!is_close(curr_color, before[chosen].0) || chosen >= i);
                        assert(chosen <= i);
                    }
                    assert(bucket_view(color_freqs@) =~= absorb(before, curr_color));
                }
            } else {
                i = i + 1;
            }
        }
        if !match_found {
            color_freqs.push((curr_color, 1));
            proof {
                assert forall|k: int| !is_first_close(before, curr_color, k) by {
                    if 0 <= k < before.len() {
                        assert(!is_close(curr_color, before[k].0));
                    }
                }
                assert(bucket_view(color_freqs@) =~= absorb(before, curr_color));
            }
        }
        at = at + 1;
    }
    proof {
        assert(colors.take(at as int) =~= colors);
    }
    color_freqs
}

/// The representative of the first bucket with the greatest count, or
/// black where there is no bucket.
pub fn get_most_common_color(color_freqs: &Vec<Bucket>) -> (most_common_color: Color)
    ensures
        most_common_color == most_common(bucket_view(color_freqs@)),
{
    let ghost buckets = bucket_view(color_freqs@);
    let ghost mut best: int = 0;
    let mut most_common_color: Color = (0, 0, 0);
    let mut highest_freq: u64 = 0;
    let mut at: usize = 0;
    while at < color_freqs.len()
        invariant
            buckets == bucket_view(color_freqs@),
            0 <= at <= color_freqs@.len(),
            forall|j: int| 0 <= j < at ==> (#[trigger] buckets[j]).1 <= highest_freq,
            highest_freq == 0 ==> most_common_color == (0u8, 0u8, 0u8),
            highest_freq > 0 ==> 0 <= best < at && buckets[best] == (
                most_common_color,
                highest_freq as nat,
            ) && forall|j: int| 0 <= j < best ==> (#[trigger] buckets[j]).1 < highest_freq,
        decreases color_freqs@.len() - at,
    {
        let bucket = color_freqs[at];
        assert(buckets[at as int] == (bucket.0, bucket.1 as nat));
        if bucket.1 > highest_freq {
            most_common_color = bucket.0;
            highest_freq = bucket.1;
            proof {
                best = at as int;
            }
        }
        at = at + 1;
    }
    proof {
        if highest_freq > 0 {
            assert(leads(buckets, best));
            let chosen = choose|i: int| leads(buckets, i);
            assert(chosen == best) by {
                assert(buckets[chosen].1 <= buckets[best].1);
                assert(buckets[best].1 <= buckets[chosen].1);
            }
        } else {
            assert forall|i: int| !leads(buckets, i) by {
                if 0 <= i < buckets.len() {
                    assert(buckets[i].1 <= highest_freq);
                }
            }
        }
    }
    most_common_color
}

/// The lines under which the colours of `img_buffer` fall into exactly two
/// buckets, in their order, each with the representative of its leading
/// bucket as the stroke colour and with no text. Every line must lie
/// within `img_buffer`.
pub fn get_text_lines<'a>(lines: &'a Vec<Line>, img_buffer: &Bitmap) -> (text_lines: Vec<
    TextLine<'a>,
>)
    requires
        forall|i: int| 0 <= i < lines@.len() ==> lies_within(#[trigger] lines@[i], *img_buffer),
    ensures
        text_lines@.map_values(|t: TextLine| *t.line) == lines@.filter(
            |line: Line| is_text(line, *img_buffer),
        ),
        forall|k: int|
            0 <= k < text_lines@.len() ==> (#[trigger] text_lines@[k]).stroke_color
                == stroke_color_of(*text_lines@[k].line, *img_buffer) && text_lines@[k].text@
                == Seq::<char>::empty(),
{
    let ghost keep = |line: Line| is_text(line, *img_buffer);
    let ghost unwrap = |t: TextLine| *t.line;
    let mut text_lines: Vec<TextLine<'a>> = Vec::new();
    let mut at: usize = 0;
    assert(text_lines@.map_values(unwrap) =~= lines@.take(0).filter(keep)) by {
        assert(lines@.take(0) =~= Seq::<Line>::empty());
    }
    while at < lines.len()
        invariant
            0 <= at <= lines@.len(),
            keep == |line: Line| is_text(line, *img_buffer),
            unwrap == |t: TextLine| *t.line,
            forall|i: int| 0 <= i < lines@.len() ==> lies_within(#[trigger] lines@[i], *img_buffer),
            text_lines@.map_values(unwrap) == lines@.take(at as int).filter(keep),
            forall|k: int|
                0 <= k < text_lines@.len() ==> (#[trigger] text_lines@[k]).stroke_color
                    == stroke_color_of(*text_lines@[k].line, *img_buffer) && text_lines@[k].text@
                    == Seq::<char>::empty(),
        decreases lines@.len() - at,
    {
        let line = &lines[at];
        let color_freqs = get_line_colors(line, img_buffer);
        proof {
            assert(lines@.take(at + 1) =~= lines@.take(at as int).push(*line));
            Seq::lemma_filter_push(lines@.take(at as int), *line, keep);
            assert(bucket_view(color_freqs@).len() == color_freqs@.len());
        }
        if color_freqs.len() == 2 {
            let stroke_color = get_most_common_color(&color_freqs);
            let ghost before = text_lines@;
            text_lines.push(TextLine { line: line, stroke_color: stroke_color, text: String::new() });
            proof {
                assert(text_lines@.map_values(unwrap) =~= before.map_values(unwrap).push(*line));
            }
        }
        at = at + 1;
    }
    proof {
        assert(lines@.take(at as int) =~= lines@);
    }
    text_lines
}

/// The distance between two colours does not depend on their order.
pub proof fn lemma_distance_symmetric(a: Color, b: Color)
    ensures
        distance_squared(a, b) == distance_squared(b, a),
        is_close(a, b) == is_close(b, a),
{
    assert(forall|x: int, y: int| #[trigger] ((x - y) * (x - y)) == (y - x) * (y - x))
        by (nonlinear_arith);
    assert((a.0 - b.0) * (a.0 - b.0) == (b.0 - a.0) * (b.0 - a.0));
    assert((a.1 - b.1) * (a.1 - b.1) == (b.1 - a.1) * (b.1 - a.1));
    assert((a.2 - b.2) * (a.2 - b.2) == (b.2 - a.2) * (b.2 - a.2));
}

/// The colours fall into two tones: two of one tone are close, two of
/// different tones are not.
pub open spec fn splits_by_tone(colors: Seq<Color>, tone: spec_fn(Color) -> bool) -> bool {
    forall|i: int, j: int|
        0 <= i < colors.len() && 0 <= j < colors.len() ==> (tone(#[trigger] colors[i]) == tone(
            #[trigger] colors[j],
        ) <==> is_close(colors[i], colors[j]))
}

/// Some colour has tone `t`.
spec fn shows(colors: Seq<Color>, tone: spec_fn(Color) -> bool, t: bool) -> bool {
    exists|i: int| 0 <= i < colors.len() && tone(#[trigger] colors[i]) == t
}

/// The representative of some bucket has tone `t`.
spec fn represents(buckets: Seq<(Color, nat)>, tone: spec_fn(Color) -> bool, t: bool) -> bool {
    exists|k: int| 0 <= k < buckets.len() && tone((#[trigger] buckets[k]).0) == t
}

/// Where the colours fall into two tones, each tone that occurs has one
/// bucket, whose representative is one of the colours, and there is no
/// other bucket.
proof fn lemma_tone_buckets(colors: Seq<Color>, tone: spec_fn(Color) -> bool)
    requires
        splits_by_tone(colors, tone),
    ensures
        forall|k: int|
            0 <= k < color_buckets(colors).len() ==> colors.contains(
                (#[trigger] color_buckets(colors)[k]).0,
            ),
        forall|k: int, l: int|
            0 <= k < l < color_buckets(colors).len() ==> tone(
                (#[trigger] color_buckets(colors)[k]).0,
            ) != tone((#[trigger] color_buckets(colors)[l]).0),
        forall|t: bool|
            #[trigger] shows(colors, tone, t) <==> represents(color_buckets(colors), tone, t),
    decreases colors.len(),
{
    let after = color_buckets(colors);
    if colors.len() > 0 {
        let n = colors.len() - 1;
        let init = colors.drop_last();
        let c = colors.last();
        let before = color_buckets(init);
        assert(colors =~= init.push(c));
        assert forall|i: int, j: int| 0 <= i < init.len() && 0 <= j < init.len() implies (tone(
            #[trigger] init[i],
        ) == tone(#[trigger] init[j]) <==> is_close(init[i], init[j])) by {
            assert(init[i] == colors[i] && init[j] == colors[j]);
        }
        lemma_tone_buckets(init, tone);
        lemma_push_contains(init, c);
        assert(after == absorb(before, c));
        assert forall|k: int| 0 <= k < before.len() implies (tone(c) == tone(
            (#[trigger] before[k]).0,
        ) <==> is_close(c, before[k].0)) by {
            let i = choose|i: int| 0 <= i < init.len() && init[i] == before[k].0;
            assert(colors[i] == before[k].0 && colors[n] == c);
        }
        if exists|k: int| 0 <= k < before.len() && tone((#[trigger] before[k]).0) == tone(c) {
            let k = choose|k: int| 0 <= k < before.len() && tone((#[trigger] before[k]).0) == tone(c);
            assert forall|j: int| 0 <= j < k implies !is_close(c, (#[trigger] before[j]).0) by {
                assert(tone(before[j].0) != tone(before[k].0));
            }
            assert(is_first_close(before, c, k));
            let chosen = choose|i: int| is_first_close(before, c, i);
            assert(chosen == k) by {
                assert(!is_close(c, before[chosen].0) || chosen >= k);
                assert(chosen <= k);
            }
            assert(after =~= before.update(k, (before[k].0, before[k].1 + 1)));
            assert forall|l: int| 0 <= l < after.len() implies after[l].0 == before[l].0 by {}
            assert forall|t: bool| #[trigger]
                shows(colors, tone, t) <==> represents(after, tone, t) by {
                assert(shows(init, tone, t) <==> represents(before, tone, t));
                if shows(colors, tone, t) {
                    let i = choose|i: int| 0 <= i < colors.len() && tone(#[trigger] colors[i]) == t;
                    if i == n {
                        assert(tone(after[k].0) == t);
                    } else {
                        assert(tone(init[i]) == t);
                        let l = choose|l: int|
                            0 <= l < before.len() && tone((#[trigger] before[l]).0) == t;
                        assert(tone(after[l].0) == t);
                    }
                }
                if represents(after, tone, t) {
                    let l = choose|l: int| 0 <= l < after.len() && tone((#[trigger] after[l]).0) == t;
                    assert(tone(before[l].0) == t);
                    let i = choose|i: int| 0 <= i < init.len() && tone(#[trigger] init[i]) == t;
                    assert(tone(colors[i]) == t);
                }
            }
        } else {
            assert forall|i: int| !is_first_close(before, c, i) by {
                if 0 <= i < before.len() {
                    assert(tone(before[i].0) != tone(c));
                }
            }
            assert(after =~= before.push((c, 1nat)));
            assert forall|l: int| 0 <= l < before.len() implies after[l].0 == before[l].0 by {}
            assert forall|t: bool| #[trigger]
                shows(colors, tone, t) <==> represents(after, tone, t) by {
                assert(shows(init, tone, t) <==> represents(before, tone, t));
                if shows(colors, tone, t) {
                    let i = choose|i: int| 0 <= i < colors.len() && tone(#[trigger] colors[i]) == t;
                    if i == n {
                        assert(tone(after[before.len() as int].0) == t);
                    } else {
                        assert(tone(init[i]) == t);
                        let l = choose|l: int|
                            0 <= l < before.len() && tone((#[trigger] before[l]).0) == t;
                        assert(tone(after[l].0) == t);
                    }
                }
                if represents(after, tone, t) {
                    let l = choose|l: int| 0 <= l < after.len() && tone((#[trigger] after[l]).0) == t;
                    if l < before.len() {
                        assert(tone(before[l].0) == t);
                        let i = choose|i: int| 0 <= i < init.len() && tone(#[trigger] init[i]) == t;
                        assert(tone(colors[i]) == t);
                    } else {
                        assert(tone(colors[n]) == t);
                    }
                }
            }
        }
    }
}

/// A line under which the colours fall into two tones, both of which
/// occur, is taken for text: colours of one tone lie no further than
/// `DIFFERENCE_COLOR_THRESH` from each other, colours of different tones
/// lie further apart.
pub proof fn lemma_two_tones_are_text(line: Line, buffer: Bitmap, tone: spec_fn(Color) -> bool)
    requires
        splits_by_tone(colors_under(line.pixels@, buffer), tone),
        exists|i: int| 0 <= i < line.pixels@.len() && tone(buffer.at(#[trigger] line.pixels@[i])),
        exists|i: int| 0 <= i < line.pixels@.len() && !tone(buffer.at(#[trigger] line.pixels@[i])),
    ensures
        is_text(line, buffer),
{
    let colors = colors_under(line.pixels@, buffer);
    let buckets = color_buckets(colors);
    lemma_tone_buckets(colors, tone);
    let i = choose|i: int| 0 <= i < line.pixels@.len() && tone(buffer.at(#[trigger] line.pixels@[i]));
    assert(tone(colors[i]));
    let j = choose|j: int|
        0 <= j < line.pixels@.len() && !tone(buffer.at(#[trigger] line.pixels@[j]));
    assert(!tone(colors[j]));
    assert(shows(colors, tone, true) && shows(colors, tone, false));
    let k = choose|k: int| 0 <= k < buckets.len() && tone((#[trigger] buckets[k]).0) == true;
    let l = choose|l: int| 0 <= l < buckets.len() && tone((#[trigger] buckets[l]).0) == false;
    assert(k != l);
    if buckets.len() > 2 {
        assert(tone(buckets[0].0) != tone(buckets[1].0));
        assert(tone(buckets[0].0) != tone(buckets[2].0));
        assert(tone(buckets[1].0) != tone(buckets[2].0));
    }
}

/// A line under which every colour is close to that of its first pixel is
/// not taken for text: all of it falls into one bucket.
pub proof fn lemma_one_tone_is_not_text(line: Line, buffer: Bitmap)
    requires
        forall|i: int|
            0 <= i < line.pixels@.len() ==> is_close(
                buffer.at(#[trigger] line.pixels@[i]),
                buffer.at(line.pixels@[0]),
            ),
    ensures
        !is_text(line, buffer),
{
    let colors = colors_under(line.pixels@, buffer);
    assert forall|i: int| 0 <= i < colors.len() implies is_close(#[trigger] colors[i], colors[0]) by {
        assert(colors[i] == buffer.at(line.pixels@[i]));
        assert(colors[0] == buffer.at(line.pixels@[0]));
    }
    lemma_one_tone_buckets(colors);
}

/// Colours that are all close to the first of them fall into one bucket.
proof fn lemma_one_tone_buckets(colors: Seq<Color>)
    requires
        forall|i: int| 0 <= i < colors.len() ==> is_close(#[trigger] colors[i], colors[0]),
    ensures
        color_buckets(colors).len() <= 1,
        colors.len() > 0 ==> color_buckets(colors).len() == 1 && color_buckets(colors)[0].0
            == colors[0],
    decreases colors.len(),
{
    if colors.len() > 0 {
        let init = colors.drop_last();
        let c = colors.last();
        let before = color_buckets(init);
        assert forall|i: int| 0 <= i < init.len() implies is_close(#[trigger] init[i], init[0]) by {
            assert(init[i] == colors[i]);
            assert(init[0] == colors[0]);
        }
        lemma_one_tone_buckets(init);
        if init.len() == 0 {
            assert forall|i: int| !is_first_close(before, c, i) by {}
            assert(color_buckets(colors) =~= before.push((c, 1nat)));
        } else {
            assert(init[0] == colors[0]);
            assert(is_close(colors[colors.len() - 1], colors[0]));
            assert(is_first_close(before, c, 0));
            let chosen = choose|i: int| is_first_close(before, c, i);
            assert(color_buckets(colors) =~= before.update(
                chosen,
                (before[chosen].0, before[chosen].1 + 1),
            ));
        }
    }
}

} // verus!
