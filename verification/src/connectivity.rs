//! Which pixels of an activation map belong together: those that reach
//! the threshold and are joined by a walk from neighbour to neighbour.

use crate::bitmap::{Bitmap, Point};
use crate::window::adjacent;
use vstd::prelude::*;

verus! {

/// `p` is a pixel of `m` whose first channel reaches `threshold`.
pub open spec fn active(m: Bitmap, threshold: u8, p: Point) -> bool {
    m.contains(p) && m.at(p).0 >= threshold
}

/// A walk over active pixels of `m`, each step leading to one of the eight
/// pixels around.
pub open spec fn is_walk(m: Bitmap, threshold: u8, walk: Seq<Point>) -> bool {
    &&& walk.len() > 0
    &&& forall|i: int| 0 <= i < walk.len() ==> active(m, threshold, #[trigger] walk[i])
    &&& forall|i: int, j: int|
        0 <= i && j == i + 1 && j < walk.len() ==> adjacent(#[trigger] walk[i], #[trigger] walk[j])
}

/// Some walk over active pixels of `m` leads from `p` to `q`.
pub open spec fn connected(m: Bitmap, threshold: u8, p: Point, q: Point) -> bool {
    exists|walk: Seq<Point>|
        #[trigger] is_walk(m, threshold, walk) && walk.first() == p && walk.last() == q
}

/// `cluster` lists, each once, the active pixels of `m` that a walk joins
/// to its first one.
pub open spec fn is_component(m: Bitmap, threshold: u8, cluster: Seq<Point>) -> bool {
    &&& cluster.len() > 0
    &&& cluster.no_duplicates()
    &&& forall|i: int|
        0 <= i < cluster.len() ==> connected(m, threshold, cluster[0], #[trigger] cluster[i])
    &&& forall|p: Point, q: Point|
        cluster.contains(p) && active(m, threshold, q) && #[trigger] adjacent(p, q)
            ==> cluster.contains(q)
}

/// An active pixel is joined to itself.
pub proof fn lemma_connected_to_itself(m: Bitmap, threshold: u8, p: Point)
    requires
        active(m, threshold, p),
    ensures
        connected(m, threshold, p, p),
{
    let walk = seq![p];
    assert(is_walk(m, threshold, walk));
    assert(walk.first() == p && walk.last() == p);
}

/// A walk from `s` to `p` goes on to any active pixel around `p`.
pub proof fn lemma_connected_step(m: Bitmap, threshold: u8, s: Point, p: Point, q: Point)
    requires
        connected(m, threshold, s, p),
        active(m, threshold, q),
        adjacent(p, q),
    ensures
        connected(m, threshold, s, q),
{
    let walk = choose|walk: Seq<Point>|
        #[trigger] is_walk(m, threshold, walk) && walk.first() == s && walk.last() == p;
    let longer = walk.push(q);
    assert forall|i: int, j: int| 0 <= i && j == i + 1 && j < longer.len() implies adjacent(
        #[trigger] longer[i],
        #[trigger] longer[j],
    ) by {
        if j < walk.len() {
            assert(adjacent(walk[i], walk[j]));
        }
    }
    assert(is_walk(m, threshold, longer));
    assert(longer.first() == s && longer.last() == q);
}

/// A walk read backwards is a walk.
pub proof fn lemma_connected_symmetric(m: Bitmap, threshold: u8, p: Point, q: Point)
    requires
        connected(m, threshold, p, q),
    ensures
        connected(m, threshold, q, p),
{
    let walk = choose|walk: Seq<Point>|
        #[trigger] is_walk(m, threshold, walk) && walk.first() == p && walk.last() == q;
    let back = walk.reverse();
    assert forall|i: int, j: int| 0 <= i && j == i + 1 && j < back.len() implies adjacent(
        #[trigger] back[i],
        #[trigger] back[j],
    ) by {
        assert(adjacent(walk[walk.len() - 1 - j], walk[walk.len() - 1 - i]));
    }
    assert(is_walk(m, threshold, back));
    assert(back.first() == q && back.last() == p);
}

/// Two walks that meet make one walk.
pub proof fn lemma_connected_transitive(m: Bitmap, threshold: u8, p: Point, q: Point, r: Point)
    requires
        connected(m, threshold, p, q),
        connected(m, threshold, q, r),
    ensures
        connected(m, threshold, p, r),
{
    let first = choose|walk: Seq<Point>|
        #[trigger] is_walk(m, threshold, walk) && walk.first() == p && walk.last() == q;
    let second = choose|walk: Seq<Point>|
        #[trigger] is_walk(m, threshold, walk) && walk.first() == q && walk.last() == r;
    let whole = first + second.drop_first();
    assert forall|i: int, j: int| 0 <= i && j == i + 1 && j < whole.len() implies adjacent(
        #[trigger] whole[i],
        #[trigger] whole[j],
    ) by {
        if j < first.len() {
            assert(adjacent(first[i], first[j]));
        } else if i < first.len() {
            assert(whole[i] == second[0]);
            assert(whole[j] == second[1]);
            assert(adjacent(second[0], second[1]));
        } else {
            assert(adjacent(second[i - first.len() + 1], second[j - first.len() + 1]));
        }
    }
    assert forall|i: int| 0 <= i < whole.len() implies active(m, threshold, #[trigger] whole[i]) by {
        if i < first.len() {
            assert(active(m, threshold, first[i]));
        } else {
            assert(active(m, threshold, second[i - first.len() + 1]));
        }
    }
    assert(is_walk(m, threshold, whole));
    assert(whole.first() == p);
    assert(whole.last() == r) by {
        if second.len() == 1 {
            assert(whole =~= first);
        }
    }
}

/// Every pixel of a component is active.
pub proof fn lemma_component_is_active(m: Bitmap, threshold: u8, cluster: Seq<Point>, p: Point)
    requires
        is_component(m, threshold, cluster),
        cluster.contains(p),
    ensures
        active(m, threshold, p),
{
    let i = choose|i: int| 0 <= i < cluster.len() && cluster[i] == p;
    assert(connected(m, threshold, cluster[0], cluster[i]));
    let walk = choose|walk: Seq<Point>|
        #[trigger] is_walk(m, threshold, walk) && walk.first() == cluster[0] && walk.last() == p;
    assert(active(m, threshold, walk[walk.len() - 1]));
}

/// A walk that starts in a component never leaves it.
proof fn lemma_walk_stays_inside(
    m: Bitmap,
    threshold: u8,
    cluster: Seq<Point>,
    walk: Seq<Point>,
    i: int,
)
    requires
        is_component(m, threshold, cluster),
        is_walk(m, threshold, walk),
        cluster.contains(walk[0]),
        0 <= i < walk.len(),
    ensures
        cluster.contains(walk[i]),
    decreases i,
{
    if i > 0 {
        lemma_walk_stays_inside(m, threshold, cluster, walk, i - 1);
        assert(active(m, threshold, walk[i]));
        assert(adjacent(walk[i - 1], walk[i]));
    }
}

/// A component holds exactly the pixels that a walk joins to its first
/// pixel: none is missing and none is foreign.
pub proof fn lemma_component_is_what_is_joined(
    m: Bitmap,
    threshold: u8,
    cluster: Seq<Point>,
    q: Point,
)
    requires
        is_component(m, threshold, cluster),
    ensures
        cluster.contains(q) <==> connected(m, threshold, cluster[0], q),
{
    if cluster.contains(q) {
        let i = choose|i: int| 0 <= i < cluster.len() && cluster[i] == q;
        assert(connected(m, threshold, cluster[0], cluster[i]));
    }
    if connected(m, threshold, cluster[0], q) {
        let walk = choose|walk: Seq<Point>|
            #[trigger] is_walk(m, threshold, walk) && walk.first() == cluster[0] && walk.last()
                == q;
        assert(cluster.contains(walk[0])) by {
            assert(cluster[0] == walk[0]);
        }
        lemma_walk_stays_inside(m, threshold, cluster, walk, walk.len() - 1);
    }
}

/// Of two components that share a pixel, each holds every pixel of the
/// other.
proof fn lemma_shared_pixel_inclusion(
    m: Bitmap,
    threshold: u8,
    a: Seq<Point>,
    b: Seq<Point>,
    p: Point,
    q: Point,
)
    requires
        is_component(m, threshold, a),
        is_component(m, threshold, b),
        a.contains(p),
        b.contains(p),
        a.contains(q),
    ensures
        b.contains(q),
{
    lemma_component_is_what_is_joined(m, threshold, a, p);
    lemma_component_is_what_is_joined(m, threshold, a, q);
    lemma_component_is_what_is_joined(m, threshold, b, p);
    lemma_connected_symmetric(m, threshold, a[0], p);
    lemma_connected_transitive(m, threshold, p, a[0], q);
    lemma_connected_transitive(m, threshold, b[0], p, q);
    lemma_component_is_what_is_joined(m, threshold, b, q);
}

/// Two components that share a pixel hold the same pixels, and as many:
/// no pixel lies in a cluster of more than four and in one of at most
/// four.
pub proof fn lemma_components_sharing_a_pixel(
    m: Bitmap,
    threshold: u8,
    a: Seq<Point>,
    b: Seq<Point>,
    p: Point,
)
    requires
        is_component(m, threshold, a),
        is_component(m, threshold, b),
        a.contains(p),
        b.contains(p),
    ensures
        a.to_set() == b.to_set(),
        a.len() == b.len(),
{
    assert forall|q: Point| a.to_set().contains(q) <==> b.to_set().contains(q) by {
        if a.contains(q) {
            lemma_shared_pixel_inclusion(m, threshold, a, b, p, q);
        }
        if b.contains(q) {
            lemma_shared_pixel_inclusion(m, threshold, b, a, p, q);
        }
    }
    assert(a.to_set() =~= b.to_set());
    a.unique_seq_to_set();
    b.unique_seq_to_set();
}

} // verus!
