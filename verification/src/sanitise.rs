//! Dropping the lines that are too small, too short or too hollow to be
//! text.

use crate::geometry::Line;
use vstd::prelude::*;

verus! {

/// The least area of a line that is kept.
pub const AREA_THRESHOLD: u64 = 8;

/// The least width or height, whichever is larger, of a line that is kept.
pub const LARGER_WIDTH_THRESHOLD: u32 = 8;

/// The least share of its rectangle, in hundredths, that the pixels of a
/// line that is kept fill.
pub const ACTIVATION_THRESHOLD_PERCENT: u64 = 50;

/// `line` is large, long and dense enough to be kept.
pub open spec fn is_retained(line: Line) -> bool {
    &&& line.area >= AREA_THRESHOLD
    &&& (line.spec_width() >= LARGER_WIDTH_THRESHOLD || line.spec_height()
        >= LARGER_WIDTH_THRESHOLD)
    &&& 100 * line.pixels@.len() >= ACTIVATION_THRESHOLD_PERCENT * line.area
}

/// `picks` names, in rising order, the places of `whole` from which the
/// elements of `part` were taken.
pub open spec fn picks_from<T>(part: Seq<T>, whole: Seq<T>, picks: Seq<int>) -> bool {
    &&& picks.len() == part.len()
    &&& forall|k: int| 0 <= k < picks.len() ==> 0 <= #[trigger] picks[k] < whole.len()
    &&& forall|k: int, l: int| 0 <= k < l < picks.len() ==> #[trigger] picks[k] < #[trigger] picks[l]
    &&& forall|k: int| 0 <= k < picks.len() ==> #[trigger] part[k] == whole[picks[k]]
}

/// `part` is `whole` with some elements left out.
pub open spec fn is_subsequence<T>(part: Seq<T>, whole: Seq<T>) -> bool {
    exists|picks: Seq<int>| picks_from(part, whole, picks)
}

/// Whether `line`, which must be well formed, is kept.
pub fn retains(line: &Line) -> (keep: bool)
    requires
        line.wf(),
    ensures
        keep == is_retained(*line),
{
    let width = line.width();
    let height = line.height();
    let larger = if width >= height {
        width
    } else {
        height
    };
    let filled: u128 = 100 * (line.pixels.len() as u128);
    assert(ACTIVATION_THRESHOLD_PERCENT * line.area <= 50 * u64::MAX) by (nonlinear_arith)
        requires
            ACTIVATION_THRESHOLD_PERCENT == 50,
            line.area <= u64::MAX,
    ;
    let needed: u128 = (ACTIVATION_THRESHOLD_PERCENT as u128) * (line.area as u128);
    line.area >= AREA_THRESHOLD && larger >= LARGER_WIDTH_THRESHOLD && filled >= needed
}

/// Keeps the lines whose area is at least `AREA_THRESHOLD`, whose width or
/// height is at least `LARGER_WIDTH_THRESHOLD`, and whose pixels fill at
/// least `ACTIVATION_THRESHOLD_PERCENT` hundredths of their rectangle. What
/// is kept stays as it was and in its order. The lines must be well
/// formed.
pub fn sanitise_lines(lines: Vec<Line>) -> (new_lines: Vec<Line>)
    requires
        forall|i: int| 0 <= i < lines@.len() ==> (#[trigger] lines@[i]).wf(),
    ensures
        new_lines@ == lines@.filter(|line: Line| is_retained(line)),
        is_subsequence(new_lines@, lines@),
        forall|k: int| 0 <= k < new_lines@.len() ==> is_retained(#[trigger] new_lines@[k]),
        forall|k: int| 0 <= k < new_lines@.len() ==> (#[trigger] new_lines@[k]).wf(),
{
    let ghost all = lines@;
    let ghost keep = |line: Line| is_retained(line);
    let ghost mut picks: Seq<int> = Seq::empty();
    let mut new_lines: Vec<Line> = Vec::new();
    assert(all.take(0).filter(keep) =~= Seq::<Line>::empty()) by {
        assert(all.take(0) =~= Seq::<Line>::empty());
    }
    for line in it: lines
        invariant
            it.seq() == all,
            keep == |line: Line| is_retained(line),
            forall|i: int| 0 <= i < all.len() ==> (#[trigger] all[i]).wf(),
            new_lines@ == all.take(it.index() as int).filter(keep),
            picks_from(new_lines@, all, picks),
            forall|k: int| 0 <= k < picks.len() ==> #[trigger] picks[k] < it.index(),
            forall|k: int| 0 <= k < new_lines@.len() ==> is_retained(#[trigger] new_lines@[k]),
            forall|k: int| 0 <= k < new_lines@.len() ==> (#[trigger] new_lines@[k]).wf(),
    {
        let ghost at = it.index() as int;
        proof {
            assert(line == all[at]);
            assert(all.take(at + 1) =~= all.take(at).push(line));
            Seq::lemma_filter_push(all.take(at), line, keep);
        }
        if retains(&line) {
            new_lines.push(line);
            proof {
                picks = picks.push(at);
            }
        }
    }
    proof {
        assert(all.take(all.len() as int) =~= all);
    }
    new_lines
}

} // verus!
