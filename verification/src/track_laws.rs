//! What holds of every tracking cycle.

use crate::geometry::jitters;
use crate::geometry::lemma_jitter_overlap;
use crate::geometry::BBox;
use crate::geometry::Ratio;
use crate::segmentation::Selection;
use crate::segmentation::TrackedObject;
use crate::segmentation::TrackerConfig;
use crate::segmentation::UserInteractionSegMsg;
use crate::track_model::advanced_phase;
use crate::track_model::after_command;
use crate::track_model::after_cycle;
use crate::track_model::after_cycles;
use crate::track_model::best_match;
use crate::track_model::cycle_pairs;
use crate::track_model::cycle_selection;
use crate::track_model::is_best_match;
use crate::track_model::is_match_candidate;
use crate::track_model::is_selectable;
use crate::track_model::is_selected;
use crate::track_model::match_prefers;
use crate::track_model::match_step;
use crate::track_model::matched_through;
use crate::track_model::nothing_pending;
use crate::track_model::overlaps_other_track;
use crate::track_model::select_step;
use crate::track_model::selected_detection;
use crate::track_model::selected_through;
use crate::track_model::selection_prefers;
use crate::track_model::MatchProgress;
use crate::track_model::TrackState;
use vstd::prelude::*;

verus! {

// ---------------------------------------------------------------------------
// Selections
// ---------------------------------------------------------------------------

/// Resolving the selections of the first `n` slots leaves the number of
/// slots alone, and leaves alone every slot that has no selection pending
/// or whose turn has not come.
pub proof fn lemma_selection_keeps(
    pre: TrackState,
    dets: Seq<BBox>,
    cfg: TrackerConfig,
    words: Seq<u32>,
    n: nat,
    j: int,
)
    requires
        pre.wf(),
        n <= pre.slots.len(),
        0 <= j < pre.slots.len(),
    ensures
        selected_through(pre, dets, cfg, words, n).slots.len() == pre.slots.len(),
        pre.pending[j] is None || j >= n ==> selected_through(pre, dets, cfg, words, n).slots[j]
            == pre.slots[j],
    decreases n,
{
    if n > 0 {
        lemma_selection_keeps(pre, dets, cfg, words, (n - 1) as nat, j);
    }
}

/// Where none of the first `n` slots has a selection pending, resolving
/// them changes nothing.
pub proof fn lemma_no_selection(
    pre: TrackState,
    dets: Seq<BBox>,
    cfg: TrackerConfig,
    words: Seq<u32>,
    n: nat,
)
    requires
        n <= pre.pending.len(),
        forall|j: int| 0 <= j < n ==> (#[trigger] pre.pending[j]) is None,
    ensures
        selected_through(pre, dets, cfg, words, n) == (MatchProgress {
            slots: pre.slots,
            taken: Set::empty(),
            pairs: Seq::empty(),
        }),
    decreases n,
{
    if n > 0 {
        lemma_no_selection(pre, dets, cfg, words, (n - 1) as nat);
    }
}

/// Among the first `n` detections, if one is selectable then one is
/// preferred to all selectable ones.
proof fn lemma_selected_in_prefix(
    slots: Seq<Option<TrackedObject>>,
    dets: Seq<BBox>,
    taken: Set<usize>,
    sel: Selection,
    threshold: Ratio,
    n: int,
) -> (b: int)
    requires
        0 <= n <= dets.len(),
        exists|i: int| 0 <= i < n && is_selectable(slots, dets, taken, sel, threshold, i),
    ensures
        0 <= b < n,
        is_selectable(slots, dets, taken, sel, threshold, b),
        forall|j: int|
            0 <= j < n && #[trigger] is_selectable(slots, dets, taken, sel, threshold, j)
                ==> selection_prefers(dets, b, j),
    decreases n,
{
    let last = n - 1;
    if exists|i: int| 0 <= i < last && is_selectable(slots, dets, taken, sel, threshold, i) {
        let b0 = lemma_selected_in_prefix(slots, dets, taken, sel, threshold, last);
        if is_selectable(slots, dets, taken, sel, threshold, last) && dets[last].spec_area()
            < dets[b0].spec_area() {
            last
        } else {
            b0
        }
    } else {
        last
    }
}

/// Where a detection is selectable, one is selected: a selectable
/// detection of the smallest area.
pub proof fn lemma_selected_exists(
    slots: Seq<Option<TrackedObject>>,
    dets: Seq<BBox>,
    taken: Set<usize>,
    sel: Selection,
    threshold: Ratio,
    i: int,
)
    requires
        is_selectable(slots, dets, taken, sel, threshold, i),
    ensures
        selected_detection(slots, dets, taken, sel, threshold) is Some,
        is_selected(
            slots,
            dets,
            taken,
            sel,
            threshold,
            selected_detection(slots, dets, taken, sel, threshold).unwrap(),
        ),
{
    let b = lemma_selected_in_prefix(slots, dets, taken, sel, threshold, dets.len() as int);
    assert(is_selected(slots, dets, taken, sel, threshold, b));
}

/// Selections of different slots do not displace one another: a pending
/// selection binds its slot whenever, at its turn, some detection is
/// selectable for it, whatever is pending for other slots. The slot is then
/// bound to a selectable detection of the smallest area.
pub proof fn law_selection_binds(
    pre: TrackState,
    dets: Seq<BBox>,
    cfg: TrackerConfig,
    words: Seq<u32>,
    s: int,
    i: int,
)
    requires
        pre.wf(),
        0 <= s < pre.slots.len(),
        pre.pending[s] is Some,
        is_selectable(
            selected_through(pre, dets, cfg, words, s as nat).slots,
            dets,
            selected_through(pre, dets, cfg, words, s as nat).taken,
            pre.pending[s].unwrap(),
            cfg.selection_threshold,
            i,
        ),
    ensures
        ({
            let before = selected_through(pre, dets, cfg, words, s as nat);
            let chosen = selected_detection(
                before.slots,
                dets,
                before.taken,
                pre.pending[s].unwrap(),
                cfg.selection_threshold,
            );
            let after = after_cycle(pre, dets, cfg, words).slots[s];
            &&& chosen is Some
            &&& 0 <= chosen.unwrap() < dets.len()
            &&& dets[chosen.unwrap()].spec_area() <= dets[i].spec_area()
            &&& after is Some
            &&& after.unwrap().bbox == dets[chosen.unwrap()]
            &&& after.unwrap().band_index == s
        }),
{
    let n = pre.slots.len();
    let sel = pre.pending[s].unwrap();
    let before = selected_through(pre, dets, cfg, words, s as nat);
    lemma_selected_exists(before.slots, dets, before.taken, sel, cfg.selection_threshold, i);
    let chosen = selected_detection(before.slots, dets, before.taken, sel, cfg.selection_threshold);
    assert(selection_prefers(dets, chosen.unwrap(), i));
    lemma_selection_keeps(pre, dets, cfg, words, s as nat, s);
    let at = selected_through(pre, dets, cfg, words, (s + 1) as nat);
    assert(at == select_step(before, pre.pending, dets, cfg, words, s));
    assert(at.slots[s] is Some);
    lemma_selection_step_stays(pre, dets, cfg, words, (s + 1) as nat, n, s);
    lemma_kept_by_matching(pre, dets, cfg, words, s);
}

/// Once a slot's turn is over, later selections do not touch it.
proof fn lemma_selection_step_stays(
    pre: TrackState,
    dets: Seq<BBox>,
    cfg: TrackerConfig,
    words: Seq<u32>,
    m: nat,
    n: nat,
    j: int,
)
    requires
        pre.wf(),
        0 <= j < m <= n <= pre.slots.len(),
    ensures
        selected_through(pre, dets, cfg, words, n).slots[j] == selected_through(
            pre,
            dets,
            cfg,
            words,
            m,
        ).slots[j],
    decreases n,
{
    if n > m {
        lemma_selection_step_stays(pre, dets, cfg, words, m, (n - 1) as nat, j);
        lemma_selection_keeps(pre, dets, cfg, words, (n - 1) as nat, j);
    }
}

/// A slot with a pending selection leaves the cycle as its selection left
/// it.
proof fn lemma_kept_by_matching(
    pre: TrackState,
    dets: Seq<BBox>,
    cfg: TrackerConfig,
    words: Seq<u32>,
    s: int,
)
    requires
        pre.wf(),
        0 <= s < pre.slots.len(),
        pre.pending[s] is Some,
    ensures
        after_cycle(pre, dets, cfg, words).slots[s] == cycle_selection(
            pre,
            dets,
            cfg,
            words,
        ).slots[s],
{
    let selected = cycle_selection(pre, dets, cfg, words);
    let before = matched_through(selected, pre.pending, dets, pre.intensities, cfg, s as nat);
    lemma_progress_len(selected, pre.pending, dets, pre.intensities, cfg, s as nat);
    assert(match_step(before, selected.slots, pre.pending, dets, pre.intensities, cfg, s).slots[s]
        == selected.slots[s]);
    lemma_progress_stable(
        selected,
        pre.pending,
        dets,
        pre.intensities,
        cfg,
        (s + 1) as nat,
        pre.slots.len(),
        s,
    );
}

/// Selection overlap guard: when every detection under the click overlaps
/// the box of another slot by more than the selection threshold, the click
/// binds nothing and the clicked slot is empty after the cycle. (Stated of
/// the lowest slot with a pending selection, which sees the slots as they
/// were before the cycle.)
pub proof fn law_selection_guard(
    pre: TrackState,
    dets: Seq<BBox>,
    cfg: TrackerConfig,
    words: Seq<u32>,
    s: int,
)
    requires
        pre.wf(),
        0 <= s < pre.slots.len(),
        pre.pending[s] is Some,
        forall|j: int| 0 <= j < s ==> (#[trigger] pre.pending[j]) is None,
        forall|i: int|
            0 <= i < dets.len() && (#[trigger] dets[i]).spec_contains(
                pre.pending[s].unwrap().x as int,
                pre.pending[s].unwrap().y as int,
            ) ==> overlaps_other_track(pre.slots, s, dets[i], cfg.selection_threshold),
    ensures
        after_cycle(pre, dets, cfg, words).slots[s] is None,
{
    let n = pre.slots.len();
    let sel = pre.pending[s].unwrap();
    lemma_no_selection(pre, dets, cfg, words, s as nat);
    let before = selected_through(pre, dets, cfg, words, s as nat);
    // No detection is selectable, so none is selected.
    assert forall|i: int|
        !is_selected(before.slots, dets, before.taken, sel, cfg.selection_threshold, i) by {
        assert(!is_selectable(before.slots, dets, before.taken, sel, cfg.selection_threshold, i));
    }
    let at = selected_through(pre, dets, cfg, words, (s + 1) as nat);
    assert(at == select_step(before, pre.pending, dets, cfg, words, s));
    assert(at.slots[s] is None);
    lemma_selection_step_stays(pre, dets, cfg, words, (s + 1) as nat, n, s);
    lemma_kept_by_matching(pre, dets, cfg, words, s);
}

// ---------------------------------------------------------------------------
// Matching
// ---------------------------------------------------------------------------

/// After `n` slots were visited, `n` new slots are decided.
pub proof fn lemma_progress_len(
    selected: MatchProgress,
    pending: Seq<Option<Selection>>,
    dets: Seq<BBox>,
    intensities: Seq<u32>,
    cfg: TrackerConfig,
    n: nat,
)
    ensures
        matched_through(selected, pending, dets, intensities, cfg, n).slots.len() == n,
    decreases n,
{
    if n > 0 {
        lemma_progress_len(selected, pending, dets, intensities, cfg, (n - 1) as nat);
    }
}

/// Visiting further slots does not change what was decided for earlier
/// ones.
pub proof fn lemma_progress_stable(
    selected: MatchProgress,
    pending: Seq<Option<Selection>>,
    dets: Seq<BBox>,
    intensities: Seq<u32>,
    cfg: TrackerConfig,
    m: nat,
    n: nat,
    j: int,
)
    requires
        0 <= j < m <= n,
    ensures
        matched_through(selected, pending, dets, intensities, cfg, n).slots[j] == matched_through(
            selected,
            pending,
            dets,
            intensities,
            cfg,
            m,
        ).slots[j],
    decreases n,
{
    if n > m {
        lemma_progress_stable(selected, pending, dets, intensities, cfg, m, (n - 1) as nat, j);
        lemma_progress_len(selected, pending, dets, intensities, cfg, (n - 1) as nat);
    }
}

/// Loss on disappearance: a bound slot for which no selection is pending,
/// and whose box no current detection overlaps by more than the continuity
/// threshold, is empty after that very cycle.
pub proof fn law_lost_without_overlap(
    pre: TrackState,
    dets: Seq<BBox>,
    cfg: TrackerConfig,
    words: Seq<u32>,
    s: int,
)
    requires
        pre.wf(),
        0 <= s < pre.slots.len(),
        pre.slots[s] is Some,
        pre.pending[s] is None,
        forall|i: int|
            0 <= i < dets.len() ==> !(pre.slots[s].unwrap().bbox.spec_iou(#[trigger] dets[i])
                > cfg.continuity_threshold.value()),
    ensures
        after_cycle(pre, dets, cfg, words).slots[s] is None,
{
    let n = pre.slots.len();
    let selected = cycle_selection(pre, dets, cfg, words);
    lemma_selection_keeps(pre, dets, cfg, words, n, s);
    let obj = pre.slots[s].unwrap();
    let before = matched_through(selected, pre.pending, dets, pre.intensities, cfg, s as nat);
    lemma_progress_len(selected, pre.pending, dets, pre.intensities, cfg, s as nat);
    // Nothing overlaps the old box enough, so nothing is a best match.
    assert forall|i: int|
        !is_best_match(obj.bbox, dets, before.taken, cfg.continuity_threshold, i) by {
        assert(!is_match_candidate(obj.bbox, dets, before.taken, cfg.continuity_threshold, i));
    }
    assert(match_step(before, selected.slots, pre.pending, dets, pre.intensities, cfg, s).slots[s]
        is None);
    lemma_progress_stable(selected, pre.pending, dets, pre.intensities, cfg, (s + 1) as nat, n, s);
}

/// Among the first `n` detections, if one is a candidate then one is
/// preferred to all candidates.
proof fn lemma_best_in_prefix(
    prev: BBox,
    dets: Seq<BBox>,
    taken: Set<usize>,
    threshold: Ratio,
    n: int,
) -> (b: int)
    requires
        0 <= n <= dets.len(),
        exists|i: int| 0 <= i < n && is_match_candidate(prev, dets, taken, threshold, i),
    ensures
        0 <= b < n,
        is_match_candidate(prev, dets, taken, threshold, b),
        forall|j: int|
            0 <= j < n && #[trigger] is_match_candidate(prev, dets, taken, threshold, j)
                ==> match_prefers(prev, dets, b, j),
    decreases n,
{
    let last = n - 1;
    if exists|i: int| 0 <= i < last && is_match_candidate(prev, dets, taken, threshold, i) {
        let b0 = lemma_best_in_prefix(prev, dets, taken, threshold, last);
        if is_match_candidate(prev, dets, taken, threshold, last) && prev.spec_iou(dets[last])
            > prev.spec_iou(dets[b0]) {
            last
        } else {
            b0
        }
    } else {
        last
    }
}

/// Where a free detection overlaps `prev` enough, a best match exists: it
/// overlaps `prev` by more than the threshold, and no free detection
/// overlaps it more.
pub proof fn lemma_best_match_exists(
    prev: BBox,
    dets: Seq<BBox>,
    taken: Set<usize>,
    threshold: Ratio,
    i: int,
)
    requires
        is_match_candidate(prev, dets, taken, threshold, i),
    ensures
        best_match(prev, dets, taken, threshold) is Some,
        is_best_match(
            prev,
            dets,
            taken,
            threshold,
            best_match(prev, dets, taken, threshold).unwrap(),
        ),
{
    let b = lemma_best_in_prefix(prev, dets, taken, threshold, dets.len() as int);
    assert(is_best_match(prev, dets, taken, threshold, b));
}

/// Slots that are empty and have no selection pending hand out no
/// detection.
proof fn lemma_nothing_taken(
    selected: MatchProgress,
    pending: Seq<Option<Selection>>,
    dets: Seq<BBox>,
    intensities: Seq<u32>,
    cfg: TrackerConfig,
    n: nat,
)
    requires
        n <= selected.slots.len(),
        n <= pending.len(),
        forall|j: int| 0 <= j < n ==> (#[trigger] selected.slots[j]) is None,
        forall|j: int| 0 <= j < n ==> (#[trigger] pending[j]) is None,
    ensures
        matched_through(selected, pending, dets, intensities, cfg, n).taken == selected.taken,
        matched_through(selected, pending, dets, intensities, cfg, n).pairs == selected.pairs,
    decreases n,
{
    if n > 0 {
        lemma_nothing_taken(selected, pending, dets, intensities, cfg, (n - 1) as nat);
    }
}

/// Persistence: with no selection pending and no lower slot bound, a bound
/// slot that some detection overlaps by more than the continuity threshold
/// stays bound, to the same band; its new box is the detection that
/// overlaps the old box most, and its phase has moved on by one cycle.
pub proof fn law_track_persists(
    pre: TrackState,
    dets: Seq<BBox>,
    cfg: TrackerConfig,
    words: Seq<u32>,
    s: int,
    i: int,
)
    requires
        pre.wf(),
        pre.pending == nothing_pending(pre.slots.len()),
        0 <= s < pre.slots.len(),
        pre.slots[s] is Some,
        forall|j: int| 0 <= j < s ==> (#[trigger] pre.slots[j]) is None,
        0 <= i < dets.len(),
        pre.slots[s].unwrap().bbox.spec_iou(dets[i]) > cfg.continuity_threshold.value(),
    ensures
        ({
            let old_obj = pre.slots[s].unwrap();
            let after = after_cycle(pre, dets, cfg, words).slots[s];
            let m = best_match(old_obj.bbox, dets, Set::empty(), cfg.continuity_threshold);
            &&& m is Some
            &&& 0 <= m.unwrap() < dets.len()
            &&& old_obj.bbox.spec_iou(dets[m.unwrap()]) >= old_obj.bbox.spec_iou(dets[i])
            &&& after == Some(
                TrackedObject {
                    bbox: dets[m.unwrap()],
                    band_index: old_obj.band_index,
                    animation_phase: advanced_phase(old_obj.animation_phase, pre.intensities[s]),
                },
            )
        }),
{
    let n = pre.slots.len();
    let obj = pre.slots[s].unwrap();
    lemma_no_selection(pre, dets, cfg, words, n);
    let selected = cycle_selection(pre, dets, cfg, words);
    lemma_nothing_taken(selected, pre.pending, dets, pre.intensities, cfg, s as nat);
    let before = matched_through(selected, pre.pending, dets, pre.intensities, cfg, s as nat);
    lemma_progress_len(selected, pre.pending, dets, pre.intensities, cfg, s as nat);
    lemma_best_match_exists(obj.bbox, dets, before.taken, cfg.continuity_threshold, i);
    let m = best_match(obj.bbox, dets, before.taken, cfg.continuity_threshold).unwrap();
    assert(match_prefers(obj.bbox, dets, m, i));
    assert(match_step(before, selected.slots, pre.pending, dets, pre.intensities, cfg, s).slots[s]
        is Some);
    lemma_progress_stable(selected, pre.pending, dets, pre.intensities, cfg, (s + 1) as nat, n, s);
}

/// An empty slot for which no selection is pending stays empty.
pub proof fn law_empty_stays_empty(
    pre: TrackState,
    dets: Seq<BBox>,
    cfg: TrackerConfig,
    words: Seq<u32>,
    s: int,
)
    requires
        pre.wf(),
        0 <= s < pre.slots.len(),
        pre.pending[s] is None,
        pre.slots[s] is None,
    ensures
        after_cycle(pre, dets, cfg, words).slots[s] is None,
{
    let n = pre.slots.len();
    let selected = cycle_selection(pre, dets, cfg, words);
    lemma_selection_keeps(pre, dets, cfg, words, n, s);
    let before = matched_through(selected, pre.pending, dets, pre.intensities, cfg, s as nat);
    lemma_progress_len(selected, pre.pending, dets, pre.intensities, cfg, s as nat);
    assert(match_step(before, selected.slots, pre.pending, dets, pre.intensities, cfg, s).slots[s]
        is None);
    lemma_progress_stable(selected, pre.pending, dets, pre.intensities, cfg, (s + 1) as nat, n, s);
}

// ---------------------------------------------------------------------------
// Invariants
// ---------------------------------------------------------------------------

/// A command leaves the state well formed, and a selection changes the
/// pending entry of its own slot only.
pub proof fn law_command_keeps_wf(pre: TrackState, cmd: UserInteractionSegMsg)
    requires
        pre.wf(),
    ensures
        after_command(pre, cmd).wf(),
        after_command(pre, cmd).slots.len() == pre.slots.len(),
        cmd matches UserInteractionSegMsg::SelectObject { slot, x, y } ==> forall|j: int|
            0 <= j < pre.pending.len() && j != slot ==> #[trigger] after_command(
                pre,
                cmd,
            ).pending[j] == pre.pending[j],
{
}

/// While selections are resolved, every bound slot carries its own index
/// as band.
proof fn lemma_selection_bands(
    pre: TrackState,
    dets: Seq<BBox>,
    cfg: TrackerConfig,
    words: Seq<u32>,
    n: nat,
)
    requires
        pre.wf(),
        n <= pre.slots.len(),
    ensures
        selected_through(pre, dets, cfg, words, n).slots.len() == pre.slots.len(),
        forall|j: int|
            0 <= j < pre.slots.len() && (#[trigger] selected_through(
                pre,
                dets,
                cfg,
                words,
                n,
            ).slots[j]) is Some ==> selected_through(
                pre,
                dets,
                cfg,
                words,
                n,
            ).slots[j].unwrap().band_index == j,
    decreases n,
{
    if n > 0 {
        lemma_selection_bands(pre, dets, cfg, words, (n - 1) as nat);
    }
}

/// Every slot decided so far carries its own index as band.
proof fn lemma_progress_bands(
    selected: MatchProgress,
    pending: Seq<Option<Selection>>,
    dets: Seq<BBox>,
    intensities: Seq<u32>,
    cfg: TrackerConfig,
    n: nat,
)
    requires
        n <= selected.slots.len(),
        forall|j: int|
            0 <= j < selected.slots.len() && (#[trigger] selected.slots[j]) is Some
                ==> selected.slots[j].unwrap().band_index == j,
    ensures
        forall|j: int|
            0 <= j < n && (#[trigger] matched_through(
                selected,
                pending,
                dets,
                intensities,
                cfg,
                n,
            ).slots[j]) is Some ==> matched_through(
                selected,
                pending,
                dets,
                intensities,
                cfg,
                n,
            ).slots[j].unwrap().band_index == j,
    decreases n,
{
    if n > 0 {
        let s = n - 1;
        lemma_progress_bands(selected, pending, dets, intensities, cfg, s as nat);
        lemma_progress_len(selected, pending, dets, intensities, cfg, s as nat);
        let before = matched_through(selected, pending, dets, intensities, cfg, s as nat);
        let after = matched_through(selected, pending, dets, intensities, cfg, n);
        assert forall|j: int| 0 <= j < n && (#[trigger] after.slots[j]) is Some implies after
            .slots[j].unwrap().band_index == j by {
            if j < s {
                assert(after.slots[j] == before.slots[j]);
            }
        }
    }
}

/// A cycle leaves the state well formed, with as many slots as before and
/// no selection pending.
pub proof fn law_cycle_keeps_wf(
    pre: TrackState,
    dets: Seq<BBox>,
    cfg: TrackerConfig,
    words: Seq<u32>,
)
    requires
        pre.wf(),
    ensures
        after_cycle(pre, dets, cfg, words).wf(),
        after_cycle(pre, dets, cfg, words).slots.len() == pre.slots.len(),
        after_cycle(pre, dets, cfg, words).pending == nothing_pending(pre.slots.len()),
{
    let n = pre.slots.len();
    let selected = cycle_selection(pre, dets, cfg, words);
    lemma_selection_bands(pre, dets, cfg, words, n);
    lemma_progress_len(selected, pre.pending, dets, pre.intensities, cfg, n);
    lemma_progress_bands(selected, pre.pending, dets, pre.intensities, cfg, n);
}

/// The bound pairs agree with the slots: every pair names a slot that is
/// bound to the box of the pair's detection, every bound slot has a pair,
/// and no slot and no detection occurs in two pairs.
pub open spec fn pairs_describe_slots(
    pairs: Seq<(usize, usize)>,
    slots: Seq<Option<TrackedObject>>,
    dets: Seq<BBox>,
) -> bool {
    &&& forall|k: int|
        0 <= k < pairs.len() ==> {
            let pair = #[trigger] pairs[k];
            &&& pair.0 < slots.len()
            &&& pair.1 < dets.len()
            &&& slots[pair.0 as int] is Some
            &&& slots[pair.0 as int].unwrap().bbox == dets[pair.1 as int]
        }
    &&& forall|a: int, b: int|
        0 <= a < b < pairs.len() ==> (#[trigger] pairs[a]).0 != (#[trigger] pairs[b]).0
            && pairs[a].1 != pairs[b].1
    &&& forall|s: int|
        0 <= s < slots.len() && (#[trigger] slots[s]) is Some ==> exists|k: int|
            0 <= k < pairs.len() && (#[trigger] pairs[k]).0 == s
}

/// What holds while the selections of the first `n` slots are resolved.
spec fn selection_inv(p: MatchProgress, pre: TrackState, dets: Seq<BBox>, n: int) -> bool {
    &&& p.slots.len() == pre.slots.len()
    &&& forall|k: int|
        0 <= k < p.pairs.len() ==> {
            let pair = #[trigger] p.pairs[k];
            &&& pair.0 < n
            &&& pre.pending[pair.0 as int] is Some
            &&& pair.1 < dets.len()
            &&& p.taken.contains(pair.1)
            &&& p.slots[pair.0 as int] is Some
            &&& p.slots[pair.0 as int].unwrap().bbox == dets[pair.1 as int]
        }
    &&& forall|a: int, b: int|
        0 <= a < b < p.pairs.len() ==> (#[trigger] p.pairs[a]).0 != (#[trigger] p.pairs[b]).0
            && p.pairs[a].1 != p.pairs[b].1
    &&& forall|t: int|
        0 <= t < n && pre.pending[t] is Some && (#[trigger] p.slots[t]) is Some ==> exists|k: int|
            0 <= k < p.pairs.len() && (#[trigger] p.pairs[k]).0 == t
}

proof fn lemma_selection_inv(
    pre: TrackState,
    dets: Seq<BBox>,
    cfg: TrackerConfig,
    words: Seq<u32>,
    n: nat,
)
    requires
        pre.wf(),
        n <= pre.slots.len(),
        dets.len() <= usize::MAX,
        pre.slots.len() <= usize::MAX,
    ensures
        selection_inv(selected_through(pre, dets, cfg, words, n), pre, dets, n as int),
    decreases n,
{
    if n > 0 {
        let s = n - 1;
        lemma_selection_inv(pre, dets, cfg, words, s as nat);
        let before = selected_through(pre, dets, cfg, words, s as nat);
        let p = selected_through(pre, dets, cfg, words, n);
        assert(p == select_step(before, pre.pending, dets, cfg, words, s));
        if pre.pending[s] is Some {
            let sel = pre.pending[s].unwrap();
            let chosen = selected_detection(
                before.slots,
                dets,
                before.taken,
                sel,
                cfg.selection_threshold,
            );
            if chosen is Some {
                let i = chosen.unwrap();
                assert(is_selected(
                    before.slots,
                    dets,
                    before.taken,
                    sel,
                    cfg.selection_threshold,
                    i,
                ));
                assert(p.pairs == before.pairs.push((s as usize, i as usize)));
            }
        }
        // Every slot that a selection bound has its pair: an earlier slot
        // keeps the pair it had, and slot `s` has the pair just made.
        assert forall|t: int|
            0 <= t < n && pre.pending[t] is Some && (#[trigger] p.slots[t]) is Some implies exists|
            k: int,
        | 0 <= k < p.pairs.len() && (#[trigger] p.pairs[k]).0 == t by {
            if t < s {
                assert(p.slots[t] == before.slots[t]);
                let k0 = choose|k: int|
                    0 <= k < before.pairs.len() && (#[trigger] before.pairs[k]).0 == t;
                assert(p.pairs[k0] == before.pairs[k0]);
            } else {
                assert(p.pairs[before.pairs.len() as int].0 == t);
            }
        }
    }
}

/// What holds of the matching after `n` slots were visited.
spec fn matching_inv(
    p: MatchProgress,
    selected: MatchProgress,
    pending: Seq<Option<Selection>>,
    dets: Seq<BBox>,
    n: int,
) -> bool {
    &&& p.slots.len() == n
    &&& p.pairs.len() >= selected.pairs.len()
    &&& forall|k: int|
        0 <= k < selected.pairs.len() ==> #[trigger] p.pairs[k] == selected.pairs[k]
    &&& forall|t: int|
        0 <= t < n && pending[t] is Some ==> #[trigger] p.slots[t] == selected.slots[t]
    &&& forall|k: int|
        0 <= k < p.pairs.len() ==> {
            let pair = #[trigger] p.pairs[k];
            &&& pair.0 < selected.slots.len()
            &&& pair.1 < dets.len()
            &&& p.taken.contains(pair.1)
            &&& if pending[pair.0 as int] is Some {
                &&& selected.slots[pair.0 as int] is Some
                &&& selected.slots[pair.0 as int].unwrap().bbox == dets[pair.1 as int]
            } else {
                &&& pair.0 < n
                &&& p.slots[pair.0 as int] is Some
                &&& p.slots[pair.0 as int].unwrap().bbox == dets[pair.1 as int]
            }
        }
    &&& forall|a: int, b: int|
        0 <= a < b < p.pairs.len() ==> (#[trigger] p.pairs[a]).0 != (#[trigger] p.pairs[b]).0
            && p.pairs[a].1 != p.pairs[b].1
    &&& forall|t: int|
        0 <= t < n && (#[trigger] p.slots[t]) is Some ==> exists|k: int|
            0 <= k < p.pairs.len() && (#[trigger] p.pairs[k]).0 == t
}

proof fn lemma_matching_inv(
    pre: TrackState,
    dets: Seq<BBox>,
    cfg: TrackerConfig,
    words: Seq<u32>,
    n: nat,
)
    requires
        pre.wf(),
        n <= pre.slots.len(),
        dets.len() <= usize::MAX,
        pre.slots.len() <= usize::MAX,
    ensures
        matching_inv(
            matched_through(
                cycle_selection(pre, dets, cfg, words),
                pre.pending,
                dets,
                pre.intensities,
                cfg,
                n,
            ),
            cycle_selection(pre, dets, cfg, words),
            pre.pending,
            dets,
            n as int,
        ),
    decreases n,
{
    let selected = cycle_selection(pre, dets, cfg, words);
    lemma_selection_inv(pre, dets, cfg, words, pre.slots.len());
    if n > 0 {
        let s = n - 1;
        lemma_matching_inv(pre, dets, cfg, words, s as nat);
        let before = matched_through(selected, pre.pending, dets, pre.intensities, cfg, s as nat);
        let p = matched_through(selected, pre.pending, dets, pre.intensities, cfg, n);
        assert(p == match_step(before, selected.slots, pre.pending, dets, pre.intensities, cfg, s));
        if pre.pending[s] is None && selected.slots[s] is Some {
            let obj = selected.slots[s].unwrap();
            let found = best_match(obj.bbox, dets, before.taken, cfg.continuity_threshold);
            if found is Some {
                let i = found.unwrap();
                assert(is_best_match(obj.bbox, dets, before.taken, cfg.continuity_threshold, i));
                assert(p.pairs == before.pairs.push((s as usize, i as usize)));
            }
        }
        assert forall|t: int| 0 <= t < n && (#[trigger] p.slots[t]) is Some implies exists|k: int|
            0 <= k < p.pairs.len() && (#[trigger] p.pairs[k]).0 == t by {
            if t < s {
                assert(p.slots[t] == before.slots[t]);
                let k0 = choose|k: int|
                    0 <= k < before.pairs.len() && (#[trigger] before.pairs[k]).0 == t;
                assert(p.pairs[k0] == before.pairs[k0]);
            } else if pre.pending[s] is Some {
                assert(selected.slots[s] is Some);
                let k1 = choose|k: int|
                    0 <= k < selected.pairs.len() && (#[trigger] selected.pairs[k]).0 == s;
                assert(p.pairs[k1] == selected.pairs[k1]);
            } else {
                assert(p.pairs[before.pairs.len() as int].0 == t);
            }
        }
    }
}

/// One object per slot, one slot per detection: after a cycle every
/// reported pair names a slot bound to the box of its detection, every
/// bound slot is reported, and no slot and no detection is reported twice.
pub proof fn law_pairs_describe_slots(
    pre: TrackState,
    dets: Seq<BBox>,
    cfg: TrackerConfig,
    words: Seq<u32>,
)
    requires
        pre.wf(),
        pre.slots.len() <= usize::MAX,
        dets.len() <= usize::MAX,
    ensures
        pairs_describe_slots(
            cycle_pairs(pre, dets, cfg, words),
            after_cycle(pre, dets, cfg, words).slots,
            dets,
        ),
{
    lemma_selection_bands(pre, dets, cfg, words, pre.slots.len());
    lemma_matching_inv(pre, dets, cfg, words, pre.slots.len());
}

// ---------------------------------------------------------------------------
// Persistence over frames
// ---------------------------------------------------------------------------

/// The box that the single tracked object had before frame `k`: the box it
/// was bound with, then the detection of the frame before.
pub open spec fn box_before_frame(first: BBox, frames: Seq<Seq<BBox>>, k: int) -> BBox {
    if k == 0 {
        first
    } else {
        frames[k - 1][0]
    }
}

/// Persistence: a single bound slot, fed one detection per frame that
/// overlaps the box of the frame before by more than the continuity
/// threshold, is still bound after any number of frames, to the same band
/// and to the newest detection; the other slots stay empty.
pub proof fn law_persistence(
    pre: TrackState,
    frames: Seq<Seq<BBox>>,
    cfg: TrackerConfig,
    words: Seq<u32>,
    s: int,
)
    requires
        pre.wf(),
        pre.pending == nothing_pending(pre.slots.len()),
        0 <= s < pre.slots.len(),
        pre.slots[s] is Some,
        forall|j: int| 0 <= j < pre.slots.len() && j != s ==> (#[trigger] pre.slots[j]) is None,
        forall|k: int|
            0 <= k < frames.len() ==> (#[trigger] frames[k]).len() == 1 && box_before_frame(
                pre.slots[s].unwrap().bbox,
                frames,
                k,
            ).spec_iou(frames[k][0]) > cfg.continuity_threshold.value(),
    ensures
        ({
            let post = after_cycles(pre, frames, cfg, words);
            &&& post.wf()
            &&& post.pending == nothing_pending(pre.slots.len())
            &&& post.slots.len() == pre.slots.len()
            &&& post.slots[s] is Some
            &&& post.slots[s].unwrap().band_index == pre.slots[s].unwrap().band_index
            &&& post.slots[s].unwrap().bbox == box_before_frame(
                pre.slots[s].unwrap().bbox,
                frames,
                frames.len() as int,
            )
            &&& forall|j: int|
                0 <= j < post.slots.len() && j != s ==> (#[trigger] post.slots[j]) is None
        }),
    decreases frames.len(),
{
    if frames.len() > 0 {
        let first = pre.slots[s].unwrap().bbox;
        let earlier = frames.drop_last();
        let k = frames.len() - 1;
        assert forall|i: int| 0 <= i < earlier.len() implies (#[trigger] earlier[i]).len() == 1
            && box_before_frame(first, earlier, i).spec_iou(earlier[i][0])
            > cfg.continuity_threshold.value() by {
            assert(earlier[i] == frames[i]);
            assert(box_before_frame(first, earlier, i) == box_before_frame(first, frames, i));
        }
        law_persistence(pre, earlier, cfg, words, s);
        let mid = after_cycles(pre, earlier, cfg, words);
        let dets = frames[k];
        assert(mid.slots[s].unwrap().bbox == box_before_frame(first, frames, k));
        law_track_persists(mid, dets, cfg, words, s, 0);
        law_cycle_keeps_wf(mid, dets, cfg, words);
        let post = after_cycle(mid, dets, cfg, words);
        assert forall|j: int| 0 <= j < post.slots.len() && j != s implies (
        #[trigger] post.slots[j]) is None by {
            law_empty_stays_empty(mid, dets, cfg, words, j);
        }
    }
}

/// Persistence under jitter: with a continuity threshold of three tenths
/// or less, a single bound slot whose object keeps its size and moves by at
/// most a tenth of its size from frame to frame is still bound after any
/// number of frames, to the same band and to the newest detection.
pub proof fn law_persistence_under_jitter(
    pre: TrackState,
    frames: Seq<Seq<BBox>>,
    cfg: TrackerConfig,
    words: Seq<u32>,
    s: int,
)
    requires
        pre.wf(),
        pre.pending == nothing_pending(pre.slots.len()),
        0 <= s < pre.slots.len(),
        pre.slots[s] is Some,
        forall|j: int| 0 <= j < pre.slots.len() && j != s ==> (#[trigger] pre.slots[j]) is None,
        cfg.continuity_threshold.value() <= (Ratio { num: 3, den: 10 }).value(),
        forall|k: int|
            0 <= k < frames.len() ==> (#[trigger] frames[k]).len() == 1 && jitters(
                box_before_frame(pre.slots[s].unwrap().bbox, frames, k),
                frames[k][0],
            ),
    ensures
        ({
            let post = after_cycles(pre, frames, cfg, words);
            &&& post.slots.len() == pre.slots.len()
            &&& post.slots[s] is Some
            &&& post.slots[s].unwrap().band_index == pre.slots[s].unwrap().band_index
            &&& post.slots[s].unwrap().bbox == box_before_frame(
                pre.slots[s].unwrap().bbox,
                frames,
                frames.len() as int,
            )
        }),
{
    assert forall|k: int| 0 <= k < frames.len() implies (#[trigger] frames[k]).len() == 1
        && box_before_frame(pre.slots[s].unwrap().bbox, frames, k).spec_iou(frames[k][0])
        > cfg.continuity_threshold.value() by {
        lemma_jitter_overlap(
            box_before_frame(pre.slots[s].unwrap().bbox, frames, k),
            frames[k][0],
        );
    }
    law_persistence(pre, frames, cfg, words, s);
}

} // verus!
