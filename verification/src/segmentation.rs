//! The object tracking engine: a fixed set of slots, each bound to at most
//! one detected object, kept stable from frame to frame.

use crate::entropy::fresh_generator;
use crate::entropy::next_word;
use crate::geometry::BBox;
use crate::geometry::Ratio;
use crate::index_set::is_taken;
use crate::index_set::mark_taken;
use crate::track_model::advanced_phase;
use crate::track_model::after_command;
use crate::track_model::after_commands;
use crate::track_model::after_cycle;
use crate::track_model::after_intensities;
use crate::track_model::best_match;
use crate::track_model::cycle_selection;
use crate::track_model::covers;
use crate::track_model::cycle_pairs;
use crate::track_model::first_hit;
use crate::track_model::fitted;
use crate::track_model::initial_state;
use crate::track_model::is_best_match;
use crate::track_model::is_first_hit;
use crate::track_model::is_match_candidate;
use crate::track_model::is_selectable;
use crate::track_model::is_selected;
use crate::track_model::match_prefers;
use crate::track_model::matched_through;
use crate::track_model::overlaps_other_track;
use crate::track_model::overlaps_track;
use crate::track_model::nothing_pending;
use crate::track_model::seed_phase_of;
use crate::track_model::selected_detection;
use crate::track_model::selected_through;
use crate::track_model::selection_prefers;
use crate::track_model::TrackState;
use crate::units::INTENSITY_ONE;
use crate::units::PHASE_TURN;
use fnv::FnvHashSet;
use rand::rngs::SmallRng;
use vstd::prelude::*;

verus! {

/// The number of slots, and of bands, of the standard setup.
pub const MAX_TRACKS: usize = 3;

/// What the phase of a tracked object gains in every cycle.
pub const PHASE_PER_CYCLE: u64 = 50_000;

/// What the phase gains in a cycle on top of that when its band is at full
/// scale; quieter bands add in proportion.
pub const PHASE_PER_FULL_INTENSITY: u64 = 100_000;

/// A command from the presentation layer. Coordinates are pixels of the
/// source image.
#[derive(Clone, Copy, Debug, PartialEq, Eq, Structural)]
pub enum UserInteractionSegMsg {
    SelectObject { slot: usize, x: i32, y: i32 },
    RemoveObjectAt { x: i32, y: i32 },
    ClearSelection,
}

/// A selection click waiting for the next set of detections.
#[derive(Clone, Copy, Debug, PartialEq, Eq, Structural)]
pub struct Selection {
    pub slot: usize,
    pub x: i32,
    pub y: i32,
}

/// The object bound to a slot.
#[derive(Clone, Copy, Debug, PartialEq, Eq, Structural)]
pub struct TrackedObject {
    pub bbox: BBox,
    pub band_index: usize,
    pub animation_phase: u64,
}

/// The two overlap thresholds of the tracker.
#[derive(Clone, Copy, Debug)]
pub struct TrackerConfig {
    /// A slot follows a detection only if their overlap ratio exceeds this.
    pub continuity_threshold: Ratio,
    /// A click cannot select a detection whose overlap ratio with another
    /// slot's box exceeds this.
    pub selection_threshold: Ratio,
}

impl TrackerConfig {
    /// Continuity above 3/10, selection guard above 6/10.
    pub fn standard() -> (c: TrackerConfig)
        ensures
            c.continuity_threshold.num == 3,
            c.continuity_threshold.den == 10,
            c.selection_threshold.num == 6,
            c.selection_threshold.den == 10,
    {
        TrackerConfig {
            continuity_threshold: Ratio { num: 3, den: 10 },
            selection_threshold: Ratio { num: 6, den: 10 },
        }
    }
}

/// What the tracking loop does next.
#[derive(Clone, Copy, Debug, PartialEq, Eq, Structural)]
pub enum CycleStep {
    /// Leave the loop and pass the cancellation on.
    Stop,
    /// No frame is there: pause briefly, call no detector.
    Wait,
    /// Run the detector on the newest frame, then update the slots.
    Detect,
}

/// Decides the next step of the tracking loop once its inputs are drained:
/// it stops when cancellation was requested or an input channel is gone,
/// detects when a frame arrived, and waits otherwise.
pub fn next_step(stop_requested: bool, input_lost: bool, frame_ready: bool) -> (step: CycleStep)
    ensures
        step == if stop_requested || input_lost {
            CycleStep::Stop
        } else if frame_ready {
            CycleStep::Detect
        } else {
            CycleStep::Wait
        },
{
    if stop_requested || input_lost {
        CycleStep::Stop
    } else if frame_ready {
        CycleStep::Detect
    } else {
        CycleStep::Wait
    }
}

/// An index as the model counts it.
pub open spec fn as_index(i: Option<usize>) -> Option<int> {
    match i {
        Some(v) => Some(v as int),
        None => None,
    }
}

/// The phase given to a freshly bound object, from a random word.
pub fn seed_phase(word: u32) -> (phase: u64)
    ensures
        phase == seed_phase_of(word),
        phase < PHASE_TURN,
{
    let scaled: u64 = word as u64 * PHASE_TURN;
    scaled / 0x1_0000_0000
}

/// The phase of a tracked object one cycle later.
pub fn advance_phase(phase: u64, intensity: u32) -> (next: u64)
    ensures
        next == advanced_phase(phase, intensity),
{
    let reactive: u64 = (intensity as u64 * PHASE_PER_FULL_INTENSITY) / (INTENSITY_ONE as u64);
    let step: u64 = PHASE_PER_CYCLE + reactive;
    if phase > u64::MAX - step {
        u64::MAX
    } else {
        phase + step
    }
}

/// The free detection that continues the box `prev`: the one that overlaps it
/// most among those above the threshold, the earliest of equals.
pub fn find_match(
    prev: &BBox,
    dets: &Vec<BBox>,
    taken: &FnvHashSet<usize>,
    threshold: &Ratio,
) -> (r: Option<usize>)
    ensures
        as_index(r) == best_match(*prev, dets@, taken@, *threshold),
{
    let n: usize = dets.len();
    let mut found: bool = false;
    let mut best: usize = 0;
    let mut best_ratio: Ratio = Ratio { num: 0, den: 0 };
    let mut i: usize = 0;
    while i < n
        invariant
            i <= n,
            n == dets@.len(),
            found ==> best < i,
            found ==> best_ratio.value() == prev.spec_iou(dets@[best as int]),
            found ==> is_match_candidate(*prev, dets@, taken@, *threshold, best as int),
            found ==> forall|j: int|
                0 <= j < i && #[trigger] is_match_candidate(*prev, dets@, taken@, *threshold, j)
                    ==> match_prefers(*prev, dets@, best as int, j),
            !found ==> forall|j: int|
                0 <= j < i ==> !#[trigger] is_match_candidate(*prev, dets@, taken@, *threshold, j),
        decreases n - i,
    {
        if !is_taken(taken, i) {
            let ratio: Ratio = prev.iou(&dets[i]);
            if ratio.exceeds(threshold) {
                let better: bool = if found {
                    ratio.exceeds(&best_ratio)
                } else {
                    true
                };
                if better {
                    found = true;
                    best = i;
                    best_ratio = ratio;
                }
            }
        }
        i += 1;
    }
    if found {
        assert(is_best_match(*prev, dets@, taken@, *threshold, best as int));
        let ghost c = choose|c: int| is_best_match(*prev, dets@, taken@, *threshold, c);
        assert(match_prefers(*prev, dets@, c, best as int));
        Some(best)
    } else {
        assert forall|c: int| !is_best_match(*prev, dets@, taken@, *threshold, c) by {
            assert(!is_match_candidate(*prev, dets@, taken@, *threshold, c));
        }
        None
    }
}

/// The tracker: slots, the pending selection of each slot, the latest band
/// intensities.
pub struct Tracker {
    slots: Vec<Option<TrackedObject>>,
    pending: Vec<Option<Selection>>,
    intensities: Vec<u32>,
    config: TrackerConfig,
    rng: SmallRng,
}

impl View for Tracker {
    type V = TrackState;

    closed spec fn view(&self) -> TrackState {
        TrackState { slots: self.slots@, pending: self.pending@, intensities: self.intensities@ }
    }
}

impl Tracker {
    /// The thresholds this tracker was made with.
    pub closed spec fn spec_config(&self) -> TrackerConfig {
        self.config
    }

    /// The invariant of the tracker: that of its state.
    pub open spec fn wf(&self) -> bool {
        self@.wf()
    }

    /// A tracker with `num_slots` empty slots and silent bands.
    pub fn new(num_slots: usize, config: TrackerConfig) -> (t: Tracker)
        ensures
            t.wf(),
            t@ == initial_state(num_slots as nat),
            t.spec_config() == config,
    {
        let mut slots: Vec<Option<TrackedObject>> = Vec::new();
        let mut pending: Vec<Option<Selection>> = Vec::new();
        let mut intensities: Vec<u32> = Vec::new();
        let mut i: usize = 0;
        while i < num_slots
            invariant
                i <= num_slots,
                slots@ =~= Seq::new(i as nat, |j: int| None::<TrackedObject>),
                pending@ =~= nothing_pending(i as nat),
                intensities@ =~= Seq::new(i as nat, |j: int| 0u32),
            decreases num_slots - i,
        {
            slots.push(None);
            pending.push(None);
            intensities.push(0);
            i += 1;
        }
        Tracker { slots, pending, intensities, config, rng: fresh_generator() }
    }

    /// The number of slots.
    pub fn num_slots(&self) -> (n: usize)
        ensures
            n == self@.slots.len(),
    {
        self.slots.len()
    }

    /// What slot `i` is bound to; nothing for a slot that does not exist.
    pub fn slot(&self, i: usize) -> (r: Option<TrackedObject>)
        ensures
            i < self@.slots.len() ==> r == self@.slots[i as int],
            i >= self@.slots.len() ==> r is None,
    {
        if i < self.slots.len() {
            self.slots[i]
        } else {
            None
        }
    }

    /// The latest loudness of band `i`; zero for a band that does not exist.
    pub fn intensity(&self, i: usize) -> (r: u32)
        ensures
            i < self@.intensities.len() ==> r == self@.intensities[i as int],
            i >= self@.intensities.len() ==> r == 0,
    {
        if i < self.intensities.len() {
            self.intensities[i]
        } else {
            0
        }
    }

    /// The selection for slot `i` that waits for the next cycle; nothing for
    /// a slot that does not exist.
    pub fn pending(&self, i: usize) -> (r: Option<Selection>)
        ensures
            i < self@.pending.len() ==> r == self@.pending[i as int],
            i >= self@.pending.len() ==> r is None,
    {
        if i < self.pending.len() {
            self.pending[i]
        } else {
            None
        }
    }

    /// The thresholds in use.
    pub fn config(&self) -> (c: TrackerConfig)
        ensures
            c == self.spec_config(),
    {
        self.config
    }

    /// Takes over a received intensity vector, cut or zero-filled to the
    /// number of bands.
    pub fn set_intensities(&mut self, values: &Vec<u32>)
        requires
            old(self).wf(),
        ensures
            final(self).wf(),
            final(self)@ == (TrackState {
                intensities: fitted(values@, old(self)@.slots.len()),
                ..old(self)@
            }),
            final(self).spec_config() == old(self).spec_config(),
    {
        let n: usize = self.slots.len();
        let mut fresh: Vec<u32> = Vec::new();
        let mut i: usize = 0;
        while i < n
            invariant
                i <= n,
                fresh@ =~= fitted(values@, i as nat),
            decreases n - i,
        {
            let v: u32 = if i < values.len() {
                values[i]
            } else {
                0
            };
            fresh.push(v);
            i += 1;
        }
        self.intensities = fresh;
    }

    /// Takes over the newest of the intensity vectors that one drain of the
    /// channel gave, oldest first. Without any, the old intensities stay.
    pub fn set_latest_intensities(&mut self, received: &Vec<Vec<u32>>)
        requires
            old(self).wf(),
        ensures
            final(self).wf(),
            final(self)@ == after_intensities(
                old(self)@,
                Seq::new(received@.len(), |i: int| received@[i]@),
            ),
            final(self).spec_config() == old(self).spec_config(),
    {
        let n: usize = received.len();
        if n > 0 {
            self.set_intensities(&received[n - 1]);
        }
    }

    /// The lowest slot whose box contains the point.
    fn find_hit(&self, x: i32, y: i32) -> (r: Option<usize>)
        ensures
            as_index(r) == first_hit(self@.slots, x as int, y as int),
    {
        let n: usize = self.slots.len();
        let mut i: usize = 0;
        while i < n
            invariant
                i <= n,
                n == self.slots@.len(),
                forall|j: int| 0 <= j < i ==> !covers(self@.slots, j, x as int, y as int),
            decreases n - i,
        {
            let hit: bool = match self.slots[i] {
                Some(obj) => obj.bbox.contains(x, y),
                None => false,
            };
            if hit {
                assert(is_first_hit(self@.slots, i as int, x as int, y as int));
                return Some(i);
            }
            i += 1;
        }
        None
    }

    /// Forgets every pending selection.
    fn forget_pending(&mut self)
        ensures
            final(self).pending@ == nothing_pending(old(self).pending@.len()),
            final(self).slots == old(self).slots,
            final(self).intensities == old(self).intensities,
            final(self).config == old(self).config,
    {
        let n: usize = self.pending.len();
        let mut i: usize = 0;
        while i < n
            invariant
                i <= n,
                n == self.pending@.len(),
                self.slots == old(self).slots,
                self.intensities == old(self).intensities,
                self.config == old(self).config,
                forall|j: int| 0 <= j < i ==> (#[trigger] self.pending@[j]) is None,
            decreases n - i,
        {
            self.pending.set(i, None);
            i += 1;
        }
        assert(self.pending@ =~= nothing_pending(n as nat));
    }

    /// Applies one command of the presentation layer.
    pub fn handle(&mut self, cmd: UserInteractionSegMsg)
        requires
            old(self).wf(),
        ensures
            final(self).wf(),
            final(self)@ == after_command(old(self)@, cmd),
            final(self).spec_config() == old(self).spec_config(),
    {
        match cmd {
            UserInteractionSegMsg::SelectObject { slot, x, y } => {
                if slot < self.pending.len() {
                    self.pending.set(slot, Some(Selection { slot, x, y }));
                }
            },
            UserInteractionSegMsg::RemoveObjectAt { x, y } => {
                let hit: Option<usize> = self.find_hit(x, y);
                match hit {
                    Some(i) => {
                        self.slots.set(i, None);
                    },
                    None => {},
                }
            },
            UserInteractionSegMsg::ClearSelection => {
                let n: usize = self.slots.len();
                let mut i: usize = 0;
                while i < n
                    invariant
                        i <= n,
                        n == self.slots@.len(),
                        n == old(self).slots@.len(),
                        self.pending == old(self).pending,
                        self.intensities == old(self).intensities,
                        self.config == old(self).config,
                        forall|j: int| 0 <= j < i ==> (#[trigger] self.slots@[j]) is None,
                    decreases n - i,
                {
                    self.slots.set(i, None);
                    i += 1;
                }
                self.forget_pending();
                assert(self.slots@ =~= Seq::new(
                    old(self).slots@.len(),
                    |i: int| None::<TrackedObject>,
                ));
            },
        }
    }

    /// Applies a run of commands in the order given.
    pub fn handle_all(&mut self, cmds: &Vec<UserInteractionSegMsg>)
        requires
            old(self).wf(),
        ensures
            final(self).wf(),
            final(self)@ == after_commands(old(self)@, cmds@),
            final(self).spec_config() == old(self).spec_config(),
    {
        let n: usize = cmds.len();
        let mut i: usize = 0;
        while i < n
            invariant
                i <= n,
                n == cmds@.len(),
                self.wf(),
                self@ == after_commands(old(self)@, cmds@.take(i as int)),
                self.spec_config() == old(self).spec_config(),
            decreases n - i,
        {
            self.handle(cmds[i]);
            assert(cmds@.take(i + 1).drop_last() =~= cmds@.take(i as int));
            i += 1;
        }
        assert(cmds@.take(n as int) =~= cmds@);
    }

    /// Whether a slot other than `slot` holds a box that overlaps `b` by more
    /// than the selection threshold.
    fn overlaps_another(&self, slot: usize, b: &BBox) -> (r: bool)
        ensures
            r == overlaps_other_track(
                self@.slots,
                slot as int,
                *b,
                self.spec_config().selection_threshold,
            ),
    {
        let n: usize = self.slots.len();
        let mut o: usize = 0;
        while o < n
            invariant
                o <= n,
                n == self.slots@.len(),
                forall|j: int|
                    0 <= j < o ==> !overlaps_track(
                        self@.slots,
                        slot as int,
                        *b,
                        self.spec_config().selection_threshold,
                        j,
                    ),
            decreases n - o,
        {
            if o != slot {
                match self.slots[o] {
                    Some(obj) => {
                        let ratio: Ratio = b.iou(&obj.bbox);
                        if ratio.exceeds(&self.config.selection_threshold) {
                            assert(overlaps_track(
                                self@.slots,
                                slot as int,
                                *b,
                                self.spec_config().selection_threshold,
                                o as int,
                            ));
                            return true;
                        }
                    },
                    None => {},
                }
            }
            o += 1;
        }
        false
    }

    /// The detection that the click `sel` binds on these detections, of
    /// which `taken` are handed out: among those that contain the click,
    /// are free and do not belong to another slot, the smallest, and of
    /// equally small ones the first.
    fn choose_detection(&self, sel: Selection, dets: &Vec<BBox>, taken: &FnvHashSet<usize>) -> (r:
        Option<usize>)
        ensures
            as_index(r) == selected_detection(
                self@.slots,
                dets@,
                taken@,
                sel,
                self.spec_config().selection_threshold,
            ),
    {
        let ghost thr = self.spec_config().selection_threshold;
        let ghost slots = self@.slots;
        let n: usize = dets.len();
        let mut found: bool = false;
        let mut best: usize = 0;
        let mut i: usize = 0;
        while i < n
            invariant
                i <= n,
                n == dets@.len(),
                thr == self.spec_config().selection_threshold,
                slots == self@.slots,
                found ==> best < i,
                found ==> is_selectable(slots, dets@, taken@, sel, thr, best as int),
                found ==> forall|j: int|
                    0 <= j < i && #[trigger] is_selectable(slots, dets@, taken@, sel, thr, j)
                        ==> selection_prefers(dets@, best as int, j),
                !found ==> forall|j: int|
                    0 <= j < i ==> !#[trigger] is_selectable(slots, dets@, taken@, sel, thr, j),
            decreases n - i,
        {
            if !is_taken(taken, i) && dets[i].contains(sel.x, sel.y) && !self.overlaps_another(
                sel.slot,
                &dets[i],
            ) {
                let better: bool = if found {
                    dets[i].area() < dets[best].area()
                } else {
                    true
                };
                if better {
                    found = true;
                    best = i;
                }
            }
            i += 1;
        }
        if found {
            assert(is_selected(slots, dets@, taken@, sel, thr, best as int));
            let ghost c = choose|c: int| is_selected(slots, dets@, taken@, sel, thr, c);
            assert(selection_prefers(dets@, c, best as int));
            Some(best)
        } else {
            assert forall|c: int| !is_selected(slots, dets@, taken@, sel, thr, c) by {
                assert(!is_selectable(slots, dets@, taken@, sel, thr, c));
            }
            None
        }
    }

    /// The detection that the pending selection of slot `slot` would bind
    /// on these detections as the slots stand, with every detection free.
    /// Nothing where no selection is pending for the slot.
    pub fn select_candidate(&self, slot: usize, dets: &Vec<BBox>) -> (r: Option<usize>)
        ensures
            as_index(r) == if slot < self@.pending.len() && self@.pending[slot as int] is Some {
                selected_detection(
                    self@.slots,
                    dets@,
                    Set::empty(),
                    self@.pending[slot as int].unwrap(),
                    self.spec_config().selection_threshold,
                )
            } else {
                None
            },
    {
        if slot >= self.pending.len() {
            return None;
        }
        match self.pending[slot] {
            None => None,
            Some(sel) => {
                let taken: FnvHashSet<usize> = FnvHashSet::default();
                self.choose_detection(sel, dets, &taken)
            },
        }
    }

    /// Resolves every pending selection, re-matches every other slot, and
    /// forgets the selections.
    fn finish_cycle(&mut self, dets: &Vec<BBox>, words: &Vec<u32>) -> (pairs: Vec<(usize, usize)>)
        requires
            old(self).wf(),
        ensures
            final(self).wf(),
            final(self)@ == after_cycle(old(self)@, dets@, old(self).spec_config(), words@),
            pairs@ == cycle_pairs(old(self)@, dets@, old(self).spec_config(), words@),
            final(self).spec_config() == old(self).spec_config(),
    {
        let ghost pre = self@;
        let ghost cfg = self.spec_config();
        let n: usize = self.slots.len();
        let mut pairs: Vec<(usize, usize)> = Vec::new();
        let mut taken: FnvHashSet<usize> = FnvHashSet::default();
        let mut s: usize = 0;
        while s < n
            invariant
                s <= n,
                n == pre.slots.len(),
                pre.wf(),
                self.slots@.len() == n,
                self.pending@ == pre.pending,
                self.intensities@ == pre.intensities,
                self.spec_config() == cfg,
                forall|j: int|
                    0 <= j < n && (#[trigger] self.slots@[j]) is Some
                        ==> self.slots@[j].unwrap().band_index == j,
                ({
                    let p = selected_through(pre, dets@, cfg, words@, s as nat);
                    &&& self.slots@ == p.slots
                    &&& taken@ == p.taken
                    &&& pairs@ == p.pairs
                }),
            decreases n - s,
        {
            match self.pending[s] {
                Some(sel) => {
                    let chosen: Option<usize> = self.choose_detection(sel, dets, &taken);
                    match chosen {
                        Some(i) => {
                            assert(is_selected(
                                self@.slots,
                                dets@,
                                taken@,
                                sel,
                                cfg.selection_threshold,
                                i as int,
                            ));
                            let word: u32 = if s < words.len() {
                                words[s]
                            } else {
                                0
                            };
                            self.slots.set(
                                s,
                                Some(
                                    TrackedObject {
                                        bbox: dets[i],
                                        band_index: s,
                                        animation_phase: seed_phase(word),
                                    },
                                ),
                            );
                            pairs.push((s, i));
                            mark_taken(&mut taken, i);
                        },
                        None => {
                            self.slots.set(s, None);
                        },
                    }
                },
                None => {},
            }
            s += 1;
        }
        let ghost selected = cycle_selection(pre, dets@, cfg, words@);

        let mut next: Vec<Option<TrackedObject>> = Vec::new();
        let mut s: usize = 0;
        while s < n
            invariant
                s <= n,
                n == pre.slots.len(),
                pre.wf(),
                next@.len() == s,
                self.slots@.len() == n,
                self.pending@.len() == n,
                self.slots@ == selected.slots,
                self.pending@ == pre.pending,
                self.intensities@ == pre.intensities,
                self.spec_config() == cfg,
                forall|j: int|
                    0 <= j < n && (#[trigger] selected.slots[j]) is Some
                        ==> selected.slots[j].unwrap().band_index == j,
                forall|j: int|
                    0 <= j < s && (#[trigger] next@[j]) is Some ==> next@[j].unwrap().band_index
                        == j,
                ({
                    let p = matched_through(
                        selected,
                        pre.pending,
                        dets@,
                        pre.intensities,
                        cfg,
                        s as nat,
                    );
                    &&& next@ == p.slots
                    &&& taken@ == p.taken
                    &&& pairs@ == p.pairs
                }),
            decreases n - s,
        {
            if self.pending[s].is_some() {
                next.push(self.slots[s]);
            } else {
                match self.slots[s] {
                    Some(obj) => {
                        let found: Option<usize> = find_match(
                            &obj.bbox,
                            dets,
                            &taken,
                            &self.config.continuity_threshold,
                        );
                        match found {
                            Some(i) => {
                                assert(is_best_match(
                                    obj.bbox,
                                    dets@,
                                    taken@,
                                    cfg.continuity_threshold,
                                    i as int,
                                ));
                                let phase: u64 = advance_phase(
                                    obj.animation_phase,
                                    self.intensities[s],
                                );
                                next.push(
                                    Some(
                                        TrackedObject {
                                            bbox: dets[i],
                                            band_index: obj.band_index,
                                            animation_phase: phase,
                                        },
                                    ),
                                );
                                pairs.push((s, i));
                                mark_taken(&mut taken, i);
                            },
                            None => {
                                next.push(None);
                            },
                        }
                    },
                    None => {
                        next.push(None);
                    },
                }
            }
            s += 1;
        }
        self.slots = next;
        self.forget_pending();
        pairs
    }

    /// One tracking cycle on the detections of a frame, with the random
    /// words given by the caller: `words[s]` seeds the phase of an object
    /// that a selection freshly binds to slot `s` (zero where the vector is
    /// too short). Returns the bound pairs `(slot, detection index)`: the
    /// selected ones by ascending slot, then the re-matched ones by
    /// ascending slot.
    pub fn update_with_seeds(&mut self, dets: &Vec<BBox>, words: &Vec<u32>) -> (pairs: Vec<
        (usize, usize),
    >)
        requires
            old(self).wf(),
        ensures
            final(self).wf(),
            final(self)@ == after_cycle(old(self)@, dets@, old(self).spec_config(), words@),
            pairs@ == cycle_pairs(old(self)@, dets@, old(self).spec_config(), words@),
            final(self).spec_config() == old(self).spec_config(),
    {
        self.finish_cycle(dets, words)
    }

    /// One random word for every slot with a pending selection, from the
    /// tracker's own generator.
    fn draw_words(&mut self) -> (words: Vec<u32>)
        ensures
            final(self)@ == old(self)@,
            final(self).spec_config() == old(self).spec_config(),
    {
        let n: usize = self.pending.len();
        let mut words: Vec<u32> = Vec::new();
        let mut s: usize = 0;
        while s < n
            invariant
                s <= n,
                n == self.pending@.len(),
                self@ == old(self)@,
                self.spec_config() == old(self).spec_config(),
            decreases n - s,
        {
            let word: u32 = if self.pending[s].is_some() {
                next_word(&mut self.rng)
            } else {
                0
            };
            words.push(word);
            s += 1;
        }
        words
    }

    /// One tracking cycle on the detections of a frame. The phases of
    /// freshly selected objects are seeded from the tracker's own
    /// generator, which is asked once for every pending selection.
    pub fn update(&mut self, dets: &Vec<BBox>) -> (pairs: Vec<(usize, usize)>)
        requires
            old(self).wf(),
        ensures
            final(self).wf(),
            exists|words: Seq<u32>|
                {
                    &&& final(self)@ == #[trigger] after_cycle(
                        old(self)@,
                        dets@,
                        old(self).spec_config(),
                        words,
                    )
                    &&& pairs@ == cycle_pairs(old(self)@, dets@, old(self).spec_config(), words)
                },
            final(self).spec_config() == old(self).spec_config(),
    {
        let words: Vec<u32> = self.draw_words();
        let pairs: Vec<(usize, usize)> = self.finish_cycle(dets, &words);
        assert(self@ == after_cycle(old(self)@, dets@, old(self).spec_config(), words@));
        pairs
    }

    /// What follows a call of the detector: a tracking cycle on what it
    /// detected, or, where it failed, nothing at all. A failed detection
    /// leaves slots and pending selections as they are and binds no pair.
    pub fn update_if_detected(&mut self, detected: &Option<Vec<BBox>>) -> (pairs: Vec<
        (usize, usize),
    >)
        requires
            old(self).wf(),
        ensures
            final(self).wf(),
            final(self).spec_config() == old(self).spec_config(),
            match detected {
                Some(dets) => exists|words: Seq<u32>|
                    {
                        &&& final(self)@ == #[trigger] after_cycle(
                            old(self)@,
                            dets@,
                            old(self).spec_config(),
                            words,
                        )
                        &&& pairs@ == cycle_pairs(
                            old(self)@,
                            dets@,
                            old(self).spec_config(),
                            words,
                        )
                    },
                None => final(self)@ == old(self)@ && pairs@.len() == 0,
            },
    {
        match detected {
            Some(dets) => self.update(dets),
            None => Vec::new(),
        }
    }
}

} // verus!
