//! How the stages fit together: what one stage returns is what the next
//! one asks for.

use crate::bitmap::{Bitmap, Point};
use crate::classify::lies_within;
use crate::components::is_clustering;
use crate::connectivity::lemma_component_is_active;
use crate::geometry::{bounding_area, lemma_bounding_area_fits, Line};
use crate::sanitise::{is_subsequence, picks_from};
use vstd::prelude::*;

verus! {

/// The clusters of a map can be given their rectangles: none is empty and
/// the area of each fits.
pub proof fn lemma_clusters_can_be_measured(m: Bitmap, threshold: u8, clusters: Seq<Vec<Point>>)
    requires
        is_clustering(m, threshold, clusters),
    ensures
        forall|i: int|
            0 <= i < clusters.len() ==> (#[trigger] clusters[i])@.len() > 0 && bounding_area(
                clusters[i]@,
            ) <= u64::MAX,
{
    assert forall|i: int| 0 <= i < clusters.len() implies (#[trigger] clusters[i])@.len() > 0
        && bounding_area(clusters[i]@) <= u64::MAX by {
        let pixels = clusters[i]@;
        assert forall|k: int| 0 <= k < pixels.len() implies (#[trigger] pixels[k]).0 < u32::MAX
            && pixels[k].1 < u32::MAX by {
            lemma_component_is_active(m, threshold, pixels, pixels[k]);
        }
        lemma_bounding_area_fits(pixels);
    }
}

/// The lines that are left of the clusters of a map lie within every
/// bitmap of the size of that map: the picture that the map was made from
/// can be read under them, and they can be painted on a canvas of its
/// size.
pub proof fn lemma_lines_lie_within(
    m: Bitmap,
    threshold: u8,
    clusters: Seq<Vec<Point>>,
    measured: Seq<Line>,
    kept: Seq<Line>,
    picture: Bitmap,
)
    requires
        is_clustering(m, threshold, clusters),
        measured.len() == clusters.len(),
        forall|i: int| 0 <= i < measured.len() ==> (#[trigger] measured[i]).pixels@ == clusters[i]@,
        is_subsequence(kept, measured),
        picture.same_size(m),
    ensures
        forall|k: int| 0 <= k < kept.len() ==> lies_within(#[trigger] kept[k], picture),
{
    let picks = choose|picks: Seq<int>| picks_from(kept, measured, picks);
    assert forall|k: int| 0 <= k < kept.len() implies lies_within(#[trigger] kept[k], picture) by {
        let i = picks[k];
        assert(kept[k] == measured[i]);
        let pixels = clusters[i]@;
        assert forall|j: int| 0 <= j < pixels.len() implies picture.contains(#[trigger] pixels[j]) by {
            lemma_component_is_active(m, threshold, pixels, pixels[j]);
        }
    }
}

} // verus!
