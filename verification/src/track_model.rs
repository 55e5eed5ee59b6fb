//! The tracking cycle as mathematics: what a cycle does to the slots, stated
//! over sequences and sets.

use crate::geometry::BBox;
use crate::geometry::Ratio;
use crate::segmentation::Selection;
use crate::segmentation::TrackedObject;
use crate::segmentation::TrackerConfig;
use crate::segmentation::UserInteractionSegMsg;
use crate::segmentation::PHASE_PER_CYCLE;
use crate::segmentation::PHASE_PER_FULL_INTENSITY;
use crate::units::INTENSITY_ONE;
use crate::units::PHASE_TURN;
use vstd::prelude::*;

verus! {

/// What the tracker remembers between cycles.
pub struct TrackState {
    /// One entry per slot; slot `i` drives band `i`.
    pub slots: Seq<Option<TrackedObject>>,
    /// For every slot, the latest selection click for it that no cycle has
    /// resolved yet.
    pub pending: Seq<Option<Selection>>,
    /// The latest loudness of each band.
    pub intensities: Seq<u32>,
}

impl TrackState {
    /// As many intensities and pending entries as slots, every bound slot
    /// carries its own index as band, and every pending selection stands at
    /// the slot it names.
    pub open spec fn wf(self) -> bool {
        &&& self.intensities.len() == self.slots.len()
        &&& self.pending.len() == self.slots.len()
        &&& forall|i: int|
            0 <= i < self.slots.len() && (#[trigger] self.slots[i]) is Some
                ==> self.slots[i].unwrap().band_index == i
        &&& forall|i: int|
            0 <= i < self.pending.len() && (#[trigger] self.pending[i]) is Some
                ==> self.pending[i].unwrap().slot == i
    }
}

/// No selection pending for any of `n` slots.
pub open spec fn nothing_pending(n: nat) -> Seq<Option<Selection>> {
    Seq::new(n, |i: int| None)
}

/// The state before anything was tracked: `n` empty slots, silence.
pub open spec fn initial_state(n: nat) -> TrackState {
    TrackState {
        slots: Seq::new(n, |i: int| None),
        pending: nothing_pending(n),
        intensities: Seq::new(n, |i: int| 0u32),
    }
}

/// A received intensity vector cut or zero-filled to `n` bands.
pub open spec fn fitted(values: Seq<u32>, n: nat) -> Seq<u32> {
    Seq::new(
        n,
        |i: int|
            if i < values.len() {
                values[i]
            } else {
                0u32
            },
    )
}

/// The state after the intensity vectors of one drain were received, oldest
/// first: the newest one counts, and without any the old intensities stay.
pub open spec fn after_intensities(pre: TrackState, received: Seq<Seq<u32>>) -> TrackState {
    if received.len() == 0 {
        pre
    } else {
        TrackState { intensities: fitted(received.last(), pre.slots.len()), ..pre }
    }
}

// ---------------------------------------------------------------------------
// Interaction commands
// ---------------------------------------------------------------------------

/// Slot `i` is bound and its box contains the point.
pub open spec fn covers(slots: Seq<Option<TrackedObject>>, i: int, x: int, y: int) -> bool {
    &&& 0 <= i < slots.len()
    &&& slots[i] is Some
    &&& slots[i].unwrap().bbox.spec_contains(x, y)
}

/// Slot `i` is the lowest slot whose box contains the point.
pub open spec fn is_first_hit(slots: Seq<Option<TrackedObject>>, i: int, x: int, y: int) -> bool {
    &&& covers(slots, i, x, y)
    &&& forall|j: int| 0 <= j < i ==> !covers(slots, j, x, y)
}

/// The lowest slot whose box contains the point, if any slot's does.
pub open spec fn first_hit(slots: Seq<Option<TrackedObject>>, x: int, y: int) -> Option<int> {
    if exists|i: int| is_first_hit(slots, i, x, y) {
        Some(choose|i: int| is_first_hit(slots, i, x, y))
    } else {
        None
    }
}

/// The state after one command. A selection replaces the pending one of
/// its own slot and of no other (one that names no slot is dropped); a
/// removal empties the lowest slot under the point; a clear empties every
/// slot and forgets every pending selection.
pub open spec fn after_command(pre: TrackState, cmd: UserInteractionSegMsg) -> TrackState {
    match cmd {
        UserInteractionSegMsg::SelectObject { slot, x, y } => {
            if slot < pre.pending.len() {
                TrackState {
                    pending: pre.pending.update(slot as int, Some(Selection { slot, x, y })),
                    ..pre
                }
            } else {
                pre
            }
        },
        UserInteractionSegMsg::RemoveObjectAt { x, y } => {
            match first_hit(pre.slots, x as int, y as int) {
                Some(i) => TrackState { slots: pre.slots.update(i, None), ..pre },
                None => pre,
            }
        },
        UserInteractionSegMsg::ClearSelection => {
            TrackState {
                slots: Seq::new(pre.slots.len(), |i: int| None),
                pending: nothing_pending(pre.pending.len()),
                intensities: pre.intensities,
            }
        },
    }
}

/// The state after a run of commands, applied in order.
pub open spec fn after_commands(pre: TrackState, cmds: Seq<UserInteractionSegMsg>) -> TrackState
    decreases cmds.len(),
{
    if cmds.len() == 0 {
        pre
    } else {
        after_command(after_commands(pre, cmds.drop_last()), cmds.last())
    }
}

// ---------------------------------------------------------------------------
// Selection
// ---------------------------------------------------------------------------

/// The box overlaps the box of a slot other than `slot` by more than the
/// threshold.
pub open spec fn overlaps_other_track(
    slots: Seq<Option<TrackedObject>>,
    slot: int,
    b: BBox,
    threshold: Ratio,
) -> bool {
    exists|o: int| overlaps_track(slots, slot, b, threshold, o)
}

/// Slot `o` is bound, is not `slot`, and its box overlaps `b` by more than
/// the threshold.
pub open spec fn overlaps_track(
    slots: Seq<Option<TrackedObject>>,
    slot: int,
    b: BBox,
    threshold: Ratio,
    o: int,
) -> bool {
    &&& 0 <= o < slots.len()
    &&& o != slot
    &&& slots[o] is Some
    &&& b.spec_iou(slots[o].unwrap().bbox) > threshold.value()
}

/// Detection `i` can be bound by a click of slot `slot` at `(x, y)`: it
/// contains the click, no slot has it yet, and it does not belong to
/// another slot.
pub open spec fn is_selectable(
    slots: Seq<Option<TrackedObject>>,
    dets: Seq<BBox>,
    taken: Set<usize>,
    sel: Selection,
    threshold: Ratio,
    i: int,
) -> bool {
    &&& 0 <= i < dets.len()
    &&& !taken.contains(i as usize)
    &&& dets[i].spec_contains(sel.x as int, sel.y as int)
    &&& !overlaps_other_track(slots, sel.slot as int, dets[i], threshold)
}

/// Detection `i` comes before detection `j` when a click could mean either:
/// the smaller box wins, and of two equally large ones the earlier.
pub open spec fn selection_prefers(dets: Seq<BBox>, i: int, j: int) -> bool {
    ||| dets[i].spec_area() < dets[j].spec_area()
    ||| (dets[i].spec_area() == dets[j].spec_area() && i <= j)
}

/// Detection `i` is selectable and preferred to every other selectable one.
pub open spec fn is_selected(
    slots: Seq<Option<TrackedObject>>,
    dets: Seq<BBox>,
    taken: Set<usize>,
    sel: Selection,
    threshold: Ratio,
    i: int,
) -> bool {
    &&& is_selectable(slots, dets, taken, sel, threshold, i)
    &&& forall|j: int|
        is_selectable(slots, dets, taken, sel, threshold, j) ==> selection_prefers(dets, i, j)
}

/// The detection that a click selects, if any detection is selectable.
pub open spec fn selected_detection(
    slots: Seq<Option<TrackedObject>>,
    dets: Seq<BBox>,
    taken: Set<usize>,
    sel: Selection,
    threshold: Ratio,
) -> Option<int> {
    if exists|i: int| is_selected(slots, dets, taken, sel, threshold, i) {
        Some(choose|i: int| is_selected(slots, dets, taken, sel, threshold, i))
    } else {
        None
    }
}

/// The random word that seeds the phase of an object freshly bound to slot
/// `s`; zero where the caller gave none.
pub open spec fn word_for(words: Seq<u32>, s: int) -> u32 {
    if 0 <= s < words.len() {
        words[s]
    } else {
        0
    }
}

// ---------------------------------------------------------------------------
// Frame-to-frame matching
// ---------------------------------------------------------------------------

/// Detection `i` is still free and overlaps `prev` by more than the
/// threshold.
pub open spec fn is_match_candidate(
    prev: BBox,
    dets: Seq<BBox>,
    taken: Set<usize>,
    threshold: Ratio,
    i: int,
) -> bool {
    &&& 0 <= i < dets.len()
    &&& !taken.contains(i as usize)
    &&& prev.spec_iou(dets[i]) > threshold.value()
}

/// Detection `i` continues `prev` at least as well as detection `j`: it
/// overlaps more, or as much and comes no later.
pub open spec fn match_prefers(prev: BBox, dets: Seq<BBox>, i: int, j: int) -> bool {
    ||| prev.spec_iou(dets[i]) > prev.spec_iou(dets[j])
    ||| (prev.spec_iou(dets[i]) == prev.spec_iou(dets[j]) && i <= j)
}

/// Detection `i` is a candidate and preferred to every other candidate.
pub open spec fn is_best_match(
    prev: BBox,
    dets: Seq<BBox>,
    taken: Set<usize>,
    threshold: Ratio,
    i: int,
) -> bool {
    &&& is_match_candidate(prev, dets, taken, threshold, i)
    &&& forall|j: int|
        is_match_candidate(prev, dets, taken, threshold, j) ==> match_prefers(prev, dets, i, j)
}

/// The free detection that continues `prev`, if any overlaps it enough.
pub open spec fn best_match(
    prev: BBox,
    dets: Seq<BBox>,
    taken: Set<usize>,
    threshold: Ratio,
) -> Option<int> {
    if exists|i: int| is_best_match(prev, dets, taken, threshold, i) {
        Some(choose|i: int| is_best_match(prev, dets, taken, threshold, i))
    } else {
        None
    }
}

/// The phase of a freshly bound object: the fraction `word / 2^32` of a full
/// turn.
pub open spec fn seed_phase_of(word: u32) -> u64 {
    ((word as int * PHASE_TURN as int) / 0x1_0000_0000) as u64
}

/// The phase one cycle later: a fixed step plus a step in proportion to the
/// band's loudness. The phase stops at the largest value it can hold.
pub open spec fn advanced_phase(phase: u64, intensity: u32) -> u64 {
    let next = phase as int + PHASE_PER_CYCLE as int + (intensity as int
        * PHASE_PER_FULL_INTENSITY as int) / (INTENSITY_ONE as int);
    if next > u64::MAX {
        u64::MAX
    } else {
        next as u64
    }
}

/// How far a cycle has come: the slots as they stand, the detections handed
/// out, and the bound pairs in the order they were made.
pub struct MatchProgress {
    pub slots: Seq<Option<TrackedObject>>,
    pub taken: Set<usize>,
    pub pairs: Seq<(usize, usize)>,
}

/// The cycle after the pending selection of slot `s`, if there is one, was
/// resolved: the slot is bound to the selected detection with a fresh
/// phase, or emptied when the click selects nothing.
pub open spec fn select_step(
    before: MatchProgress,
    pending: Seq<Option<Selection>>,
    dets: Seq<BBox>,
    cfg: TrackerConfig,
    words: Seq<u32>,
    s: int,
) -> MatchProgress {
    match pending[s] {
        Some(sel) => match selected_detection(
            before.slots,
            dets,
            before.taken,
            sel,
            cfg.selection_threshold,
        ) {
            Some(i) => MatchProgress {
                slots: before.slots.update(
                    s,
                    Some(
                        TrackedObject {
                            bbox: dets[i],
                            band_index: s as usize,
                            animation_phase: seed_phase_of(word_for(words, s)),
                        },
                    ),
                ),
                taken: before.taken.insert(i as usize),
                pairs: before.pairs.push((s as usize, i as usize)),
            },
            None => MatchProgress { slots: before.slots.update(s, None), ..before },
        },
        None => before,
    }
}

/// The cycle after the pending selections of the first `n` slots were
/// resolved in ascending order. Each selection sees the slots as the ones
/// before it left them.
pub open spec fn selected_through(
    pre: TrackState,
    dets: Seq<BBox>,
    cfg: TrackerConfig,
    words: Seq<u32>,
    n: nat,
) -> MatchProgress
    decreases n,
{
    if n == 0 {
        MatchProgress { slots: pre.slots, taken: Set::empty(), pairs: Seq::empty() }
    } else {
        select_step(
            selected_through(pre, dets, cfg, words, (n - 1) as nat),
            pre.pending,
            dets,
            cfg,
            words,
            n - 1,
        )
    }
}

/// The matching after slot `s` was visited, given the matching before it.
/// A slot whose selection was resolved in this cycle keeps what the
/// selection left. Any other bound slot takes its best free match and moves
/// its phase on, or is emptied if nothing matches.
pub open spec fn match_step(
    before: MatchProgress,
    base: Seq<Option<TrackedObject>>,
    pending: Seq<Option<Selection>>,
    dets: Seq<BBox>,
    intensities: Seq<u32>,
    cfg: TrackerConfig,
    s: int,
) -> MatchProgress {
    if pending[s] is Some {
        MatchProgress { slots: before.slots.push(base[s]), ..before }
    } else {
        match base[s] {
            Some(obj) => match best_match(
                obj.bbox,
                dets,
                before.taken,
                cfg.continuity_threshold,
            ) {
                Some(i) => MatchProgress {
                    slots: before.slots.push(
                        Some(
                            TrackedObject {
                                bbox: dets[i],
                                band_index: obj.band_index,
                                animation_phase: advanced_phase(
                                    obj.animation_phase,
                                    intensities[s],
                                ),
                            },
                        ),
                    ),
                    taken: before.taken.insert(i as usize),
                    pairs: before.pairs.push((s as usize, i as usize)),
                },
                None => MatchProgress { slots: before.slots.push(None), ..before },
            },
            None => MatchProgress { slots: before.slots.push(None), ..before },
        }
    }
}

/// The matching after the first `n` slots were visited in ascending order,
/// starting from what the selections left.
pub open spec fn matched_through(
    selected: MatchProgress,
    pending: Seq<Option<Selection>>,
    dets: Seq<BBox>,
    intensities: Seq<u32>,
    cfg: TrackerConfig,
    n: nat,
) -> MatchProgress
    decreases n,
{
    if n == 0 {
        MatchProgress { slots: Seq::empty(), taken: selected.taken, pairs: selected.pairs }
    } else {
        match_step(
            matched_through(selected, pending, dets, intensities, cfg, (n - 1) as nat),
            selected.slots,
            pending,
            dets,
            intensities,
            cfg,
            n - 1,
        )
    }
}

/// The cycle once every pending selection is resolved.
pub open spec fn cycle_selection(
    pre: TrackState,
    dets: Seq<BBox>,
    cfg: TrackerConfig,
    words: Seq<u32>,
) -> MatchProgress {
    selected_through(pre, dets, cfg, words, pre.slots.len())
}

/// The whole of one cycle: selections first, then the matching.
pub open spec fn cycle_progress(
    pre: TrackState,
    dets: Seq<BBox>,
    cfg: TrackerConfig,
    words: Seq<u32>,
) -> MatchProgress {
    matched_through(
        cycle_selection(pre, dets, cfg, words),
        pre.pending,
        dets,
        pre.intensities,
        cfg,
        pre.slots.len(),
    )
}

/// The state after one cycle on the detections `dets`: every pending
/// selection is resolved and consumed, in ascending slot order, then every
/// other slot is re-matched. `words[s]` seeds the phase of an object
/// freshly bound to slot `s`.
pub open spec fn after_cycle(
    pre: TrackState,
    dets: Seq<BBox>,
    cfg: TrackerConfig,
    words: Seq<u32>,
) -> TrackState {
    TrackState {
        slots: cycle_progress(pre, dets, cfg, words).slots,
        pending: nothing_pending(pre.pending.len()),
        intensities: pre.intensities,
    }
}

/// The bound pairs `(slot, detection)` of one cycle: the selected pairs by
/// ascending slot, then the matched ones by ascending slot.
pub open spec fn cycle_pairs(
    pre: TrackState,
    dets: Seq<BBox>,
    cfg: TrackerConfig,
    words: Seq<u32>,
) -> Seq<(usize, usize)> {
    cycle_progress(pre, dets, cfg, words).pairs
}

/// The state after a run of cycles, one per frame, on the detections of
/// each frame in turn.
pub open spec fn after_cycles(
    pre: TrackState,
    frames: Seq<Seq<BBox>>,
    cfg: TrackerConfig,
    words: Seq<u32>,
) -> TrackState
    decreases frames.len(),
{
    if frames.len() == 0 {
        pre
    } else {
        after_cycle(after_cycles(pre, frames.drop_last(), cfg, words), frames.last(), cfg, words)
    }
}

/// The state after the detector ran: a cycle on what it detected, or the
/// state as it was where it failed.
pub open spec fn after_detection(
    pre: TrackState,
    detected: Option<Seq<BBox>>,
    cfg: TrackerConfig,
    words: Seq<u32>,
) -> TrackState {
    match detected {
        Some(dets) => after_cycle(pre, dets, cfg, words),
        None => pre,
    }
}

} // verus!
