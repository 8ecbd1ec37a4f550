//! Grouping the pixels of an activation map that reach a threshold into
//! clusters of neighbours.

use crate::bitmap::{Bitmap, Point};
use crate::connectivity::{
    active, connected, is_component, lemma_component_is_active, lemma_components_sharing_a_pixel,
    lemma_connected_step, lemma_connected_to_itself,
};
use crate::region::lemma_bounded_by_span;
use crate::sequences::{lemma_drop_last_contains, lemma_filter_map_step, lemma_push_contains};
use crate::window::{adjacent, lands_inside, lemma_window_cell, moved, window_offsets, Offset};
use vstd::prelude::*;

verus! {

/// The pixels around `p` that lie in a `width` by `height` grid, in window
/// order.
pub open spec fn surrounding(p: Point, width: u32, height: u32) -> Seq<Point> {
    window_offsets(1).filter(
        |d: Offset| d != (0int, 0int) && lands_inside(p, d, width, height),
    ).map_values(|d: Offset| moved(p, d))
}

/// Where `q`, one of the nine cells around and including `p`, stands in
/// window order.
spec fn window_rank(p: Point, q: Point) -> int {
    3 * (q.0 - p.0 + 1) + (q.1 - p.1 + 1)
}

/// The neighbours of `(x, y)` among the eight around it that lie inside a
/// grid of `width` columns and `height` rows.
pub fn get_surrounding_pixels(x: u32, y: u32, width: u32, height: u32) -> (pixels: Vec<Point>)
    ensures
        pixels@ == surrounding((x, y), width, height),
        pixels@.no_duplicates(),
        forall|q: Point|
            #![trigger pixels@.contains(q)]
            #![trigger adjacent((x, y), q)]
            pixels@.contains(q) <==> adjacent((x, y), q) && q.0 < width && q.1 < height,
{
    let ghost p: Point = (x, y);
    let ghost cells = window_offsets(1);
    let ghost keep = |d: Offset| d != (0int, 0int) && lands_inside(p, d, width, height);
    let ghost shift = |d: Offset| moved(p, d);
    let mut pixels: Vec<Point> = Vec::new();
    let mut x_offs: i64 = -1;
    assert(cells.take(0).filter(keep).map_values(shift) =~= Seq::<Point>::empty()) by {
        assert(cells.take(0) =~= Seq::<Offset>::empty());
    }
    while x_offs <= 1
        invariant
            -1 <= x_offs <= 2,
            p == (x, y),
            cells == window_offsets(1),
            keep == |d: Offset| d != (0int, 0int) && lands_inside(p, d, width, height),
            shift == |d: Offset| moved(p, d),
            pixels@ == cells.take(3 * (x_offs + 1)).filter(keep).map_values(shift),
            pixels@.no_duplicates(),
            forall|q: Point|
                #![trigger pixels@.contains(q)]
                #![trigger adjacent(p, q)]
                pixels@.contains(q) <==> adjacent(p, q) && q.0 < width && q.1 < height
                    && window_rank(p, q) < 3 * (x_offs + 1),
        decreases 2 - x_offs,
    {
        let mut y_offs: i64 = -1;
        while y_offs <= 1
            invariant
                -1 <= x_offs <= 1,
                -1 <= y_offs <= 2,
                p == (x, y),
                cells == window_offsets(1),
                keep == |d: Offset| d != (0int, 0int) && lands_inside(p, d, width, height),
                shift == |d: Offset| moved(p, d),
                pixels@ == cells.take(3 * (x_offs + 1) + (y_offs + 1)).filter(keep).map_values(
                    shift,
                ),
                pixels@.no_duplicates(),
                forall|q: Point|
                    #![trigger pixels@.contains(q)]
                    #![trigger adjacent(p, q)]
                    pixels@.contains(q) <==> adjacent(p, q) && q.0 < width && q.1 < height
                        && window_rank(p, q) < 3 * (x_offs + 1) + (y_offs + 1),
            decreases 2 - y_offs,
        {
            let ghost k: int = 3 * (x_offs + 1) + (y_offs + 1);
            let ghost d: Offset = (x_offs as int, y_offs as int);
            proof {
                lemma_window_cell(1, k);
                assert(cells[k] == d);
                lemma_filter_map_step(cells, k, keep, shift);
            }
            let offs_x: i64 = x as i64 + x_offs;
            let offs_y: i64 = y as i64 + y_offs;
            let ghost before = pixels@;
            if !(x_offs == 0 && y_offs == 0) && 0 <= offs_x && offs_x < width as i64 && 0 <= offs_y
                && offs_y < height as i64 {
                assert(keep(d));
                pixels.push((offs_x as u32, offs_y as u32));
                proof {
                    let q: Point = (offs_x as u32, offs_y as u32);
                    assert(q == shift(d));
                    assert(window_rank(p, q) == k);
                    assert(!before.contains(q));
                    assert forall|r: Point|
                        #![trigger pixels@.contains(r)]
                        #![trigger adjacent(p, r)]
                        pixels@.contains(r) <==> adjacent(p, r) && r.0 < width && r.1 < height
                            && window_rank(p, r) < k + 1 by {
                        if pixels@.contains(r) {
                            let i = choose|i: int| 0 <= i < pixels@.len() && pixels@[i] == r;
                            if i < before.len() {
                                assert(before[i] == r);
                                assert(before.contains(r));
                            }
                        }
                        if adjacent(p, r) && r.0 < width && r.1 < height && window_rank(p, r) < k
                            + 1 {
                            if window_rank(p, r) == k {
                                assert(r == q);
                                assert(pixels@[before.len() as int] == r);
                            } else {
                                assert(before.contains(r));
                                let i = choose|i: int| 0 <= i < before.len() && before[i] == r;
                                assert(pixels@[i] == r);
                            }
                        }
                    }
                }
            } else {
                assert(!keep(d));
                proof {
                    assert forall|r: Point|
                        adjacent(p, r) && r.0 < width && r.1 < height implies window_rank(p, r)
                        != k by {
                        if window_rank(p, r) == k {
                            assert(r.0 - p.0 == d.0 && r.1 - p.1 == d.1);
                        }
                    }
                }
            }
            y_offs = y_offs + 1;
        }
        x_offs = x_offs + 1;
    }
    proof {
        lemma_window_cell(1, 0);
        assert(cells.take(9) =~= cells);
    }
    pixels
}

/// `p` comes before `q` where columns are scanned from the left and each
/// column from row 0.
pub open spec fn precedes(p: Point, q: Point) -> bool {
    p.0 < q.0 || (p.0 == q.0 && p.1 < q.1)
}

/// Some cluster of `lines` holds `p`.
pub open spec fn covered(lines: Seq<Vec<Point>>, p: Point) -> bool {
    exists|i: int| 0 <= i < lines.len() && (#[trigger] lines[i])@.contains(p)
}

/// `p` belongs to a component of at most four pixels.
pub open spec fn in_small_component(m: Bitmap, threshold: u8, p: Point) -> bool {
    exists|cluster: Seq<Point>|
        #[trigger] is_component(m, threshold, cluster) && cluster.len() <= 4 && cluster.contains(
            p,
        )
}

/// The active pixels of `m`.
spec fn live_set(m: Bitmap, threshold: u8) -> Set<Point> {
    Set::new(|p: Point| active(m, threshold, p))
}

/// `cur` is `m0` with some of its active pixels blanked.
spec fn blanked_from(m0: Bitmap, cur: Bitmap, threshold: u8) -> bool {
    &&& cur.same_size(m0)
    &&& forall|p: Point|
        #![trigger cur.at(p)]
        #![trigger m0.at(p)]
        m0.contains(p) ==> cur.at(p) == m0.at(p) || (m0.at(p).0 >= threshold && cur.at(p) == (
            0u8,
            0u8,
            0u8,
        ))
}

/// No pixel that is still active in `cur` touches one that was blanked.
spec fn sealed(m0: Bitmap, cur: Bitmap, threshold: u8) -> bool {
    forall|p: Point, q: Point|
        active(m0, threshold, p) && !active(cur, threshold, p) && active(cur, threshold, q)
            ==> !#[trigger] adjacent(p, q)
}

/// Some cluster of `clusters` holds `p`.
spec fn held(clusters: Seq<Seq<Point>>, p: Point) -> bool {
    exists|k: int| 0 <= k < clusters.len() && (#[trigger] clusters[k]).contains(p)
}

/// `p` was visited before `(x, y)` where columns are scanned from the left
/// and each column from row 0.
spec fn scanned(p: Point, x: int, y: int) -> bool {
    p.0 < x || (p.0 == x && p.1 < y)
}

/// The active pixels of a bitmap are finitely many.
proof fn lemma_live_set_finite(m: Bitmap, threshold: u8)
    ensures
        live_set(m, threshold).finite(),
{
    lemma_bounded_by_span(
        live_set(m, threshold),
        0,
        m.spec_width() as int,
        0,
        m.spec_height() as int,
    );
}

/// What a list of clusters covers once one more is appended.
proof fn lemma_covered_push(lines: Seq<Vec<Point>>, line: Vec<Point>, p: Point)
    ensures
        covered(lines.push(line), p) <==> covered(lines, p) || line@.contains(p),
{
    let longer = lines.push(line);
    if covered(longer, p) {
        let i = choose|i: int| 0 <= i < longer.len() && (#[trigger] longer[i])@.contains(p);
        if i < lines.len() {
            assert(lines[i]@.contains(p));
        }
    }
    if covered(lines, p) {
        let i = choose|i: int| 0 <= i < lines.len() && (#[trigger] lines[i])@.contains(p);
        assert(longer[i]@.contains(p));
    }
    if line@.contains(p) {
        assert(longer[lines.len() as int]@.contains(p));
    }
}

/// What a list of clusters holds once one more is appended.
proof fn lemma_held_push(clusters: Seq<Seq<Point>>, cluster: Seq<Point>, p: Point)
    ensures
        held(clusters.push(cluster), p) <==> held(clusters, p) || cluster.contains(p),
{
    let longer = clusters.push(cluster);
    if held(longer, p) {
        let k = choose|k: int| 0 <= k < longer.len() && (#[trigger] longer[k]).contains(p);
        if k < clusters.len() {
            assert(clusters[k].contains(p));
        }
    }
    if held(clusters, p) {
        let k = choose|k: int| 0 <= k < clusters.len() && (#[trigger] clusters[k]).contains(p);
        assert(longer[k].contains(p));
    }
    if cluster.contains(p) {
        assert(longer[clusters.len() as int].contains(p));
    }
}

/// Blanks the still-active pixels that a walk joins to `(x, y)` and returns
/// them, `(x, y)` first. `m0` is the map as it was before any pixel was
/// blanked; the pixels blanked since then are whole components of it.
fn grow_cluster(buffer: &mut Bitmap, threshold: u8, x: u32, y: u32, Ghost(m0): Ghost<Bitmap>) -> (line:
    Vec<Point>)
    requires
        threshold > 0,
        blanked_from(m0, *old(buffer), threshold),
        sealed(m0, *old(buffer), threshold),
        active(*old(buffer), threshold, (x, y)),
    ensures
        blanked_from(m0, *final(buffer), threshold),
        sealed(m0, *final(buffer), threshold),
        is_component(m0, threshold, line@),
        grows_by_neighbours(line@),
        line@[0] == (x, y),
        forall|i: int| 0 <= i < line@.len() ==> active(*old(buffer), threshold, #[trigger] line@[i]),
        forall|p: Point|
            #![trigger active(*final(buffer), threshold, p)]
            #![trigger active(*old(buffer), threshold, p)]
            #![trigger line@.contains(p)]
            active(*final(buffer), threshold, p) <==> active(*old(buffer), threshold, p)
                && !line@.contains(p),
{
    let ghost start = *buffer;
    let ghost seed: Point = (x, y);
    let width = buffer.raw_width();
    let height = buffer.raw_height();
    let mut line: Vec<Point> = Vec::new();
    line.push((x, y));
    let mut coords_to_be_checked: Vec<Point> = Vec::new();
    coords_to_be_checked.push((x, y));
    buffer.raw_put(x, y, (0, 0, 0));
    proof {
        lemma_connected_to_itself(m0, threshold, seed);
        assert(line@ =~= seq![seed]);
        assert(coords_to_be_checked@ =~= seq![seed]);
        assert forall|p: Point|
            #![trigger active(*buffer, threshold, p)]
            #![trigger active(start, threshold, p)]
            #![trigger line@.contains(p)]
            active(*buffer, threshold, p) <==> active(start, threshold, p) && !line@.contains(
                p,
            ) by {
            if p == seed {
                assert(line@[0] == p);
            }
        }
    }
    while coords_to_be_checked.len() > 0
        invariant
            threshold > 0,
            seed == (x, y),
            blanked_from(m0, start, threshold),
            sealed(m0, start, threshold),
            blanked_from(m0, *buffer, threshold),
            width == buffer.spec_width(),
            height == buffer.spec_height(),
            // The line holds, each once, pixels that were active and are joined to the seed.
            line@.len() > 0,
            line@[0] == seed,
            line@.no_duplicates(),
            grows_by_neighbours(line@),
            forall|i: int|
                0 <= i < line@.len() ==> active(start, threshold, #[trigger] line@[i]) && connected(
                    m0,
                    threshold,
                    seed,
                    line@[i],
                ),
            // What has been blanked since the start is what the line holds.
            forall|p: Point|
                #![trigger active(*buffer, threshold, p)]
                #![trigger active(start, threshold, p)]
                #![trigger line@.contains(p)]
                active(*buffer, threshold, p) <==> active(start, threshold, p) && !line@.contains(
                    p,
                ),
            // A pixel of the line either waits on the stack or has no active neighbour left.
            coords_to_be_checked@.no_duplicates(),
            forall|j: int|
                0 <= j < coords_to_be_checked@.len() ==> line@.contains(
                    #[trigger] coords_to_be_checked@[j],
                ),
            forall|p: Point, q: Point|
                line@.contains(p) && !coords_to_be_checked@.contains(p) && active(m0, threshold, q)
                    && #[trigger] adjacent(p, q) ==> !active(*buffer, threshold, q),
        // Each round either blanks a pixel or shortens the stack.
        decreases live_set(*buffer, threshold).len(), coords_to_be_checked.len(),
    {
        let ghost stack_before = coords_to_be_checked@;
        let ghost live_before = live_set(*buffer, threshold).len();
        let check_coord = coords_to_be_checked.pop().unwrap();
        proof {
            lemma_drop_last_contains(stack_before);
            assert(line@.contains(stack_before[stack_before.len() - 1]));
        }
        let surrounding_pixels = get_surrounding_pixels(check_coord.0, check_coord.1, width, height);
        let ghost stack_popped = coords_to_be_checked@;
        let mut pixel_index: usize = 0;
        while pixel_index < surrounding_pixels.len()
            invariant
                threshold > 0,
                seed == (x, y),
                blanked_from(m0, start, threshold),
                sealed(m0, start, threshold),
                blanked_from(m0, *buffer, threshold),
                width == buffer.spec_width(),
                height == buffer.spec_height(),
                line@.len() > 0,
                line@[0] == seed,
                line@.no_duplicates(),
                grows_by_neighbours(line@),
                forall|i: int|
                    0 <= i < line@.len() ==> active(start, threshold, #[trigger] line@[i])
                        && connected(m0, threshold, seed, line@[i]),
                forall|p: Point|
                    #![trigger active(*buffer, threshold, p)]
                    #![trigger active(start, threshold, p)]
                    #![trigger line@.contains(p)]
                    active(*buffer, threshold, p) <==> active(start, threshold, p)
                        && !line@.contains(p),
                coords_to_be_checked@.no_duplicates(),
                forall|j: int|
                    0 <= j < coords_to_be_checked@.len() ==> line@.contains(
                        #[trigger] coords_to_be_checked@[j],
                    ),
                line@.contains(check_coord),
                !coords_to_be_checked@.contains(check_coord),
                forall|q: Point|
                    #![trigger surrounding_pixels@.contains(q)]
                    #![trigger adjacent(check_coord, q)]
                    surrounding_pixels@.contains(q) <==> adjacent(check_coord, q) && q.0 < width
                        && q.1 < height,
                forall|p: Point, q: Point|
                    line@.contains(p) && !coords_to_be_checked@.contains(p) && p != check_coord
                        && active(m0, threshold, q) && #[trigger] adjacent(p, q) ==> !active(
                        *buffer,
                        threshold,
                        q,
                    ),
                0 <= pixel_index <= surrounding_pixels.len(),
                forall|j: int|
                    0 <= j < pixel_index ==> !active(
                        *buffer,
                        threshold,
                        #[trigger] surrounding_pixels@[j],
                    ),
                live_set(*buffer, threshold).len() + (coords_to_be_checked@.len()
                    - stack_popped.len()) == live_before,
                coords_to_be_checked@.len() >= stack_popped.len(),
                stack_popped.len() + 1 == stack_before.len(),
            decreases surrounding_pixels.len() - pixel_index,
        {
            let neighbour = surrounding_pixels[pixel_index];
            proof {
                assert(surrounding_pixels@.contains(neighbour));
            }
            let surrounding_pixel = buffer.raw_get(neighbour.0, neighbour.1);
            if surrounding_pixel.0 >= threshold {
                let ghost prev = *buffer;
                let ghost line_prev = line@;
                let ghost stack_prev = coords_to_be_checked@;
                coords_to_be_checked.push(neighbour);
                line.push(neighbour);
                buffer.raw_put(neighbour.0, neighbour.1, (0, 0, 0));
                proof {
                    assert(active(prev, threshold, neighbour));
                    assert(!line_prev.contains(neighbour));
                    assert(active(m0, threshold, neighbour));
                    lemma_push_contains(line_prev, neighbour);
                    lemma_push_contains(stack_prev, neighbour);
                    let at = choose|i: int| 0 <= i < line_prev.len() && line_prev[i] == check_coord;
                    lemma_connected_step(m0, threshold, seed, check_coord, neighbour);
                    assert forall|i: int| 0 < i < line@.len() implies exists|j: int|
                        0 <= j < i && adjacent(#[trigger] line@[j], #[trigger] line@[i]) by {
                        if i < line_prev.len() {
                            let j = choose|j: int|
                                0 <= j < i && adjacent(
                                    #[trigger] line_prev[j],
                                    #[trigger] line_prev[i],
                                );
                            assert(adjacent(line@[j], line@[i]));
                        } else {
                            assert(adjacent(line@[at], line@[i]));
                        }
                    }
                    if stack_prev.contains(neighbour) {
                        let j = choose|j: int| 0 <= j < stack_prev.len() && stack_prev[j] == neighbour;
                        assert(line_prev.contains(stack_prev[j]));
                    }
                    assert forall|j: int| 0 <= j < coords_to_be_checked@.len() implies line@.contains(
                        #[trigger] coords_to_be_checked@[j],
                    ) by {
                        if j < stack_prev.len() {
                            assert(line_prev.contains(stack_prev[j]));
                        }
                    }
                    assert(live_set(*buffer, threshold) =~= live_set(prev, threshold).remove(
                        neighbour,
                    ));
                    lemma_live_set_finite(prev, threshold);
                    assert forall|j: int| 0 <= j < pixel_index + 1 implies !active(
                        *buffer,
                        threshold,
                        #[trigger] surrounding_pixels@[j],
                    ) by {
                        if j < pixel_index {
                            assert(!active(prev, threshold, surrounding_pixels@[j]));
                        }
                    }
                }
            }
            pixel_index = pixel_index + 1;
        }
        proof {
            assert forall|p: Point, q: Point|
                line@.contains(p) && !coords_to_be_checked@.contains(p) && active(m0, threshold, q)
                    && #[trigger] adjacent(p, q) implies !active(*buffer, threshold, q) by {
                if p == check_coord {
                    assert(surrounding_pixels@.contains(q));
                    let j = choose|j: int|
                        0 <= j < surrounding_pixels@.len() && surrounding_pixels@[j] == q;
                    assert(!active(*buffer, threshold, surrounding_pixels@[j]));
                }
            }
            lemma_live_set_finite(*buffer, threshold);
        }
    }
    proof {
        // The line is closed: an active neighbour that it lacks would have been blanked
        // earlier, and what was blanked earlier touches nothing that was still active.
        assert forall|p: Point, q: Point|
            line@.contains(p) && active(m0, threshold, q) && #[trigger] adjacent(
                p,
                q,
            ) implies line@.contains(q) by {
            assert(!coords_to_be_checked@.contains(p));
            assert(!active(*buffer, threshold, q));
            let i = choose|i: int| 0 <= i < line@.len() && line@[i] == p;
            assert(active(start, threshold, line@[i]));
            if !active(start, threshold, q) {
                assert(adjacent(q, p));
            }
        }
        assert forall|i: int| 0 <= i < line@.len() implies connected(
            m0,
            threshold,
            line@[0],
            #[trigger] line@[i],
        ) by {}
        assert forall|p: Point, q: Point|
            active(m0, threshold, p) && !active(*buffer, threshold, p) && active(
                *buffer,
                threshold,
                q,
            ) implies !#[trigger] adjacent(p, q) by {
            if adjacent(p, q) {
                assert(active(start, threshold, q));
                assert(active(m0, threshold, q));
                if active(start, threshold, p) {
                    assert(line@.contains(p));
                    assert(line@.contains(q));
                }
            }
        }
    }
    line
}

/// `lines` are the components of `m` that have more than four pixels: each
/// is one, no two share a pixel, and an active pixel that none of them
/// holds belongs to a component of at most four.
pub open spec fn is_clustering(m: Bitmap, threshold: u8, lines: Seq<Vec<Point>>) -> bool {
    &&& forall|i: int|
        0 <= i < lines.len() ==> is_component(m, threshold, (#[trigger] lines[i])@) && lines[i]@.len()
            > 4
    &&& forall|i: int, j: int, p: Point|
        #![trigger lines[i]@.contains(p), lines[j]@.contains(p)]
        0 <= i < j < lines.len() && lines[i]@.contains(p) ==> !lines[j]@.contains(p)
    &&& forall|p: Point|
        #![trigger active(m, threshold, p)]
        active(m, threshold, p) ==> covered(lines, p) || in_small_component(m, threshold, p)
}

/// Every pixel of `cluster` but the first touches one that stands before
/// it: the cluster is listed as it was explored.
pub open spec fn grows_by_neighbours(cluster: Seq<Point>) -> bool {
    forall|i: int|
        0 < i < cluster.len() ==> exists|j: int|
            0 <= j < i && adjacent(#[trigger] cluster[j], #[trigger] cluster[i])
}

/// Each cluster starts with the first of its pixels that a scan by columns
/// meets and goes on from neighbour to neighbour, and the clusters stand in
/// the order of their first pixels.
pub open spec fn in_scan_order(lines: Seq<Vec<Point>>) -> bool {
    &&& forall|i: int, q: Point|
        0 <= i < lines.len() && #[trigger] lines[i]@.contains(q) && q != lines[i]@[0] ==> precedes(
            lines[i]@[0],
            q,
        )
    &&& forall|i: int, j: int|
        0 <= i < j < lines.len() ==> precedes((#[trigger] lines[i])@[0], (#[trigger] lines[j])@[0])
    &&& forall|i: int| 0 <= i < lines.len() ==> grows_by_neighbours((#[trigger] lines[i])@)
}

/// `after` is `before` with every active pixel black.
pub open spec fn is_blanked(before: Bitmap, after: Bitmap, threshold: u8) -> bool {
    &&& after.same_size(before)
    &&& forall|p: Point|
        before.contains(p) ==> #[trigger] after.at(p) == if before.at(p).0 >= threshold {
            (0u8, 0u8, 0u8)
        } else {
            before.at(p)
        }
}

/// An active pixel lies in exactly one of the clusters where its component
/// has more than four pixels, and in none where it has at most four.
pub proof fn lemma_one_cluster_or_none(
    m: Bitmap,
    threshold: u8,
    lines: Seq<Vec<Point>>,
    p: Point,
)
    requires
        is_clustering(m, threshold, lines),
        active(m, threshold, p),
    ensures
        covered(lines, p) <==> !in_small_component(m, threshold, p),
        forall|i: int, j: int|
            0 <= i < lines.len() && 0 <= j < lines.len() && (#[trigger] lines[i])@.contains(p) && (
            #[trigger] lines[j])@.contains(p) ==> i == j,
{
    if covered(lines, p) && in_small_component(m, threshold, p) {
        let i = choose|i: int| 0 <= i < lines.len() && (#[trigger] lines[i])@.contains(p);
        let small = choose|cluster: Seq<Point>|
            #[trigger] is_component(m, threshold, cluster) && cluster.len() <= 4
                && cluster.contains(p);
        lemma_components_sharing_a_pixel(m, threshold, lines[i]@, small, p);
    }
    assert forall|i: int, j: int|
        0 <= i < lines.len() && 0 <= j < lines.len() && (#[trigger] lines[i])@.contains(p) && (
        #[trigger] lines[j])@.contains(p) implies i == j by {
        if i < j {
            assert(!lines[j]@.contains(p));
        }
        if j < i {
            assert(!lines[i]@.contains(p));
        }
    }
}

/// Splits the pixels of `buffer` whose first channel reaches `threshold`
/// into clusters of neighbours and blanks them. A cluster of more than four
/// pixels is returned; the clusters stand in the order in which a scan by
/// columns meets them, each starting with the pixel that the scan met.
/// With a threshold of 0 a blanked pixel could not be told from one that
/// is still to be visited.
pub fn get_lines(buffer: &mut Bitmap, threshold: u8) -> (lines: Vec<Vec<Point>>)
    requires
        threshold > 0,
    ensures
        is_blanked(*old(buffer), *final(buffer), threshold),
        is_clustering(*old(buffer), threshold, lines@),
        in_scan_order(lines@),
{
    let ghost m0 = *buffer;
    // The clusters of at most four pixels, which are blanked but not returned.
    let ghost mut discarded: Seq<Seq<Point>> = Seq::empty();
    let mut lines: Vec<Vec<Point>> = Vec::new();
    let width = buffer.raw_width();
    let height = buffer.raw_height();
    let mut x: u32 = 0;
    while x < width
        invariant
            threshold > 0,
            width == buffer.spec_width(),
            height == buffer.spec_height(),
            0 <= x <= width,
            blanked_from(m0, *buffer, threshold),
            sealed(m0, *buffer, threshold),
            forall|i: int|
                0 <= i < lines@.len() ==> is_component(m0, threshold, (#[trigger] lines@[i])@)
                    && lines@[i]@.len() > 4,
            forall|i: int| 0 <= i < lines@.len() ==> grows_by_neighbours((#[trigger] lines@[i])@),
            forall|k: int|
                0 <= k < discarded.len() ==> is_component(m0, threshold, #[trigger] discarded[k])
                    && discarded[k].len() <= 4,
            forall|i: int, j: int, p: Point|
                #![trigger lines@[i]@.contains(p), lines@[j]@.contains(p)]
                0 <= i < j < lines@.len() && lines@[i]@.contains(p) ==> !lines@[j]@.contains(p),
            forall|p: Point|
                #![trigger active(m0, threshold, p)]
                #![trigger active(*buffer, threshold, p)]
                active(m0, threshold, p) ==> (!active(*buffer, threshold, p) <==> covered(lines@, p)
                    || held(discarded, p)),
            forall|p: Point|
                #![trigger active(*buffer, threshold, p)]
                scanned(p, x as int, 0) ==> !active(*buffer, threshold, p),
            forall|i: int|
                0 <= i < lines@.len() ==> scanned((#[trigger] lines@[i])@[0], x as int, 0),
            forall|i: int, q: Point|
                0 <= i < lines@.len() && #[trigger] lines@[i]@.contains(q) && q != lines@[i]@[0]
                    ==> precedes(lines@[i]@[0], q),
            forall|i: int, j: int|
                0 <= i < j < lines@.len() ==> precedes(
                    (#[trigger] lines@[i])@[0],
                    (#[trigger] lines@[j])@[0],
                ),
        decreases width - x,
    {
        let mut y: u32 = 0;
        while y < height
            invariant
                threshold > 0,
                width == buffer.spec_width(),
                height == buffer.spec_height(),
                0 <= x < width,
                0 <= y <= height,
                blanked_from(m0, *buffer, threshold),
                sealed(m0, *buffer, threshold),
                forall|i: int|
                    0 <= i < lines@.len() ==> is_component(m0, threshold, (#[trigger] lines@[i])@)
                        && lines@[i]@.len() > 4,
                forall|i: int|
                    0 <= i < lines@.len() ==> grows_by_neighbours((#[trigger] lines@[i])@),
                forall|k: int|
                    0 <= k < discarded.len() ==> is_component(
                        m0,
                        threshold,
                        #[trigger] discarded[k],
                    ) && discarded[k].len() <= 4,
                forall|i: int, j: int, p: Point|
                    #![trigger lines@[i]@.contains(p), lines@[j]@.contains(p)]
                    0 <= i < j < lines@.len() && lines@[i]@.contains(p) ==> !lines@[j]@.contains(p),
                forall|p: Point|
                    #![trigger active(m0, threshold, p)]
                    #![trigger active(*buffer, threshold, p)]
                    active(m0, threshold, p) ==> (!active(*buffer, threshold, p) <==> covered(
                        lines@,
                        p,
                    ) || held(discarded, p)),
                forall|p: Point|
                    #![trigger active(*buffer, threshold, p)]
                    scanned(p, x as int, y as int) ==> !active(*buffer, threshold, p),
                forall|i: int|
                    0 <= i < lines@.len() ==> scanned(
                        (#[trigger] lines@[i])@[0],
                        x as int,
                        y as int,
                    ),
                forall|i: int, q: Point|
                    0 <= i < lines@.len() && #[trigger] lines@[i]@.contains(q) && q
                        != lines@[i]@[0] ==> precedes(lines@[i]@[0], q),
                forall|i: int, j: int|
                    0 <= i < j < lines@.len() ==> precedes(
                        (#[trigger] lines@[i])@[0],
                        (#[trigger] lines@[j])@[0],
                    ),
            decreases height - y,
        {
            let pixel = buffer.raw_get(x, y);
            if pixel.0 >= threshold {
                let ghost prev = *buffer;
                let ghost seed: Point = (x, y);
                let line = grow_cluster(buffer, threshold, x, y, Ghost(m0));
                let ghost cluster = line@;
                let ghost lines_prev = lines@;
                let ghost discarded_prev = discarded;
                proof {
                    assert(cluster.contains(seed)) by {
                        assert(cluster[0] == seed);
                    }
                    assert forall|q: Point| cluster.contains(q) && q != seed implies precedes(
                        seed,
                        q,
                    ) by {
                        let i = choose|i: int| 0 <= i < cluster.len() && cluster[i] == q;
                        assert(active(prev, threshold, cluster[i]));
                        assert(!scanned(q, x as int, y as int));
                    }
                    assert forall|i: int, p: Point|
                        0 <= i < lines_prev.len() && #[trigger] lines_prev[i]@.contains(
                            p,
                        ) implies !cluster.contains(p) by {
                        lemma_component_is_active(m0, threshold, lines_prev[i]@, p);
                        assert(covered(lines_prev, p));
                        assert(!active(prev, threshold, p));
                        if cluster.contains(p) {
                            let k = choose|k: int| 0 <= k < cluster.len() && cluster[k] == p;
                            assert(active(prev, threshold, cluster[k]));
                        }
                    }
                }
                if line.len() > 4 {
                    lines.push(line);
                } else {
                    proof {
                        discarded = discarded.push(cluster);
                    }
                }
                proof {
                    assert forall|p: Point|
                        #![trigger active(m0, threshold, p)]
                        #![trigger active(*buffer, threshold, p)]
                        active(m0, threshold, p) implies (!active(*buffer, threshold, p)
                        <==> covered(lines@, p) || held(discarded, p)) by {
                        assert(active(*buffer, threshold, p) <==> active(prev, threshold, p)
                            && !cluster.contains(p));
                        assert(!active(prev, threshold, p) <==> covered(lines_prev, p) || held(
                            discarded_prev,
                            p,
                        ));
                        if cluster.len() > 4 {
                            lemma_covered_push(lines_prev, line, p);
                        } else {
                            lemma_held_push(discarded_prev, cluster, p);
                        }
                    }
                    assert forall|p: Point|
                        #![trigger active(*buffer, threshold, p)]
                        scanned(p, x as int, y + 1) implies !active(*buffer, threshold, p) by {
                        assert(active(*buffer, threshold, p) <==> active(prev, threshold, p)
                            && !cluster.contains(p));
                        if !scanned(p, x as int, y as int) {
                            assert(p == seed);
                        }
                    }
                }
            }
            y = y + 1;
        }
        x = x + 1;
    }
    proof {
        assert forall|p: Point|
            #![trigger active(m0, threshold, p)]
            active(m0, threshold, p) implies covered(lines@, p) || in_small_component(
            m0,
            threshold,
            p,
        ) by {
            assert(scanned(p, x as int, 0));
            assert(!active(*buffer, threshold, p));
            if held(discarded, p) {
                let k = choose|k: int|
                    0 <= k < discarded.len() && (#[trigger] discarded[k]).contains(p);
                assert(is_component(m0, threshold, discarded[k]));
            }
        }
        assert forall|p: Point| m0.contains(p) implies #[trigger] buffer.at(p) == if m0.at(p).0
            >= threshold {
            (0u8, 0u8, 0u8)
        } else {
            m0.at(p)
        } by {
            assert(scanned(p, x as int, 0));
            assert(!active(*buffer, threshold, p));
        }
    }
    lines
}

} // verus!
