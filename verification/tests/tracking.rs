use fnv::FnvHashSet;
use sam_cam_bam::geometry::BBox;
use sam_cam_bam::geometry::Ratio;
use sam_cam_bam::segmentation::advance_phase;
use sam_cam_bam::segmentation::find_match;
use sam_cam_bam::segmentation::next_step;
use sam_cam_bam::segmentation::seed_phase;
use sam_cam_bam::segmentation::CycleStep;
use sam_cam_bam::segmentation::Selection;
use sam_cam_bam::segmentation::TrackedObject;
use sam_cam_bam::segmentation::Tracker;
use sam_cam_bam::segmentation::TrackerConfig;
use sam_cam_bam::segmentation::UserInteractionSegMsg;
use sam_cam_bam::segmentation::MAX_TRACKS;
use sam_cam_bam::segmentation::PHASE_PER_CYCLE;
use sam_cam_bam::units::PHASE_TURN;

fn tracker() -> Tracker {
    Tracker::new(MAX_TRACKS, TrackerConfig::standard())
}

fn select(slot: usize, x: i32, y: i32) -> UserInteractionSegMsg {
    UserInteractionSegMsg::SelectObject { slot, x, y }
}

/// Binds `slot` to `b` by a click in its middle.
fn bind(t: &mut Tracker, slot: usize, b: BBox) {
    t.handle(select(slot, b.xmin + b.width as i32 / 2, b.ymin + b.height as i32 / 2));
    let pairs = t.update_with_seeds(&vec![b], &vec![0; 3]);
    assert_eq!(pairs, vec![(slot, 0)]);
    assert_eq!(t.slot(slot).unwrap().bbox, b);
}

#[test]
fn new_tracker_is_empty_and_silent() {
    let t = tracker();
    assert_eq!(t.num_slots(), 3);
    for i in 0..3 {
        assert_eq!(t.slot(i), None);
        assert_eq!(t.intensity(i), 0);
    }
    assert_eq!(t.slot(3), None);
    assert_eq!(t.intensity(3), 0);
    for i in 0..4 {
        assert_eq!(t.pending(i), None);
    }
    assert_eq!(t.config().continuity_threshold.num, 3);
    assert_eq!(t.config().continuity_threshold.den, 10);
    assert_eq!(t.config().selection_threshold.num, 6);
    assert_eq!(t.config().selection_threshold.den, 10);
}

#[test]
fn selection_binds_the_clicked_detection() {
    let mut t = tracker();
    let a = BBox::new(0, 0, 50, 50);
    let b = BBox::new(200, 200, 40, 40);
    t.handle(select(1, 210, 220));
    assert_eq!(t.pending(1), Some(Selection { slot: 1, x: 210, y: 220 }));
    assert_eq!(t.pending(0), None);
    let pairs = t.update_with_seeds(&vec![a, b], &vec![1 << 31; 3]);
    assert_eq!(pairs, vec![(1, 1)]);
    assert_eq!(
        t.slot(1),
        Some(TrackedObject { bbox: b, band_index: 1, animation_phase: 3_141_592 })
    );
    assert_eq!(t.slot(0), None);
    assert_eq!(t.slot(2), None);
    assert_eq!(t.pending(1), None);
}

#[test]
fn persistence_under_jitter() {
    let mut t = tracker();
    let mut b = BBox::new(100, 100, 100, 100);
    bind(&mut t, 1, b);
    let shifts: [(i32, i32); 4] = [(10, 0), (0, 10), (-10, -10), (7, -9)];
    for frame in 1..20 {
        let (dx, dy) = shifts[frame % 4];
        b = BBox::new(b.xmin + dx, b.ymin + dy, b.width, b.height);
        let pairs = t.update_with_seeds(&vec![b], &vec![0; 3]);
        assert_eq!(pairs, vec![(1, 0)]);
        let obj = t.slot(1).unwrap();
        assert_eq!(obj.bbox, b);
        assert_eq!(obj.band_index, 1);
        assert_eq!(obj.animation_phase, frame as u64 * PHASE_PER_CYCLE);
        assert_eq!(t.slot(0), None);
        assert_eq!(t.slot(2), None);
    }
}

#[test]
fn loss_on_disappearance() {
    let mut t = tracker();
    let b = BBox::new(100, 100, 100, 100);
    bind(&mut t, 0, b);
    // A detection that overlaps too little, and one that does not overlap.
    let weak = BBox::new(170, 100, 100, 100);
    let far = BBox::new(500, 500, 100, 100);
    assert!(!b.iou(&weak).exceeds(&Ratio::new(3, 10)));
    let pairs = t.update_with_seeds(&vec![weak, far], &vec![0; 3]);
    assert!(pairs.is_empty());
    assert_eq!(t.slot(0), None);
    // The object coming back does not bring the track back.
    let pairs = t.update_with_seeds(&vec![b], &vec![0; 3]);
    assert!(pairs.is_empty());
    assert_eq!(t.slot(0), None);
}

#[test]
fn loss_on_empty_detections() {
    let mut t = tracker();
    bind(&mut t, 2, BBox::new(0, 0, 10, 10));
    let pairs = t.update_with_seeds(&vec![], &vec![0; 3]);
    assert!(pairs.is_empty());
    assert_eq!(t.slot(2), None);
}

#[test]
fn overlap_at_the_threshold_is_not_enough() {
    let mut t = tracker();
    let b = BBox::new(0, 0, 130, 10);
    bind(&mut t, 0, b);
    // Overlap 60 of 200 pixels wide: exactly 3/10.
    let d = BBox::new(70, 0, 130, 10);
    let r = b.iou(&d);
    assert!(r.same_value(&Ratio::new(3, 10)));
    let pairs = t.update_with_seeds(&vec![d], &vec![0; 3]);
    assert!(pairs.is_empty());
    assert_eq!(t.slot(0), None);
}

#[test]
fn overlap_just_above_the_threshold_is_enough() {
    let mut t = tracker();
    let b = BBox::new(0, 0, 130, 10);
    bind(&mut t, 0, b);
    let d = BBox::new(69, 0, 130, 10);
    assert!(b.iou(&d).exceeds(&Ratio::new(3, 10)));
    let pairs = t.update_with_seeds(&vec![d], &vec![0; 3]);
    assert_eq!(pairs, vec![(0, 0)]);
    assert_eq!(t.slot(0).unwrap().bbox, d);
}

#[test]
fn selection_overlap_guard() {
    let mut t = tracker();
    let a = BBox::new(0, 0, 100, 100);
    bind(&mut t, 0, a);
    // Overlaps slot 0's box with ratio 8/10.
    let d = BBox::new(0, 0, 100, 80);
    assert!(d.iou(&a).same_value(&Ratio::new(8, 10)));
    t.handle(select(1, 50, 40));
    assert_eq!(t.select_candidate(1, &vec![d]), None);
    let pairs = t.update_with_seeds(&vec![d], &vec![0; 3]);
    assert_eq!(t.slot(1), None);
    // Slot 0 follows the detection as before.
    assert_eq!(pairs, vec![(0, 0)]);
    assert_eq!(t.slot(0).unwrap().bbox, d);
    assert_eq!(t.pending(1), None);
}

#[test]
fn selection_overlap_guard_empties_a_bound_slot() {
    let mut t = tracker();
    let a = BBox::new(0, 0, 100, 100);
    let other = BBox::new(300, 300, 50, 50);
    bind(&mut t, 0, a);
    t.handle(select(1, 310, 310));
    let pairs = t.update_with_seeds(&vec![a, other], &vec![0; 3]);
    assert_eq!(pairs, vec![(1, 1), (0, 0)]);
    // Slot 1 now clicks on what slot 0 holds.
    t.handle(select(1, 50, 50));
    let pairs = t.update_with_seeds(&vec![a, other], &vec![0; 3]);
    assert_eq!(pairs, vec![(0, 0)]);
    assert_eq!(t.slot(1), None);
    assert_eq!(t.slot(0).unwrap().bbox, a);
}

#[test]
fn reselecting_the_own_object_is_allowed() {
    let mut t = tracker();
    let a = BBox::new(0, 0, 100, 100);
    bind(&mut t, 0, a);
    t.handle(select(0, 50, 50));
    let pairs = t.update_with_seeds(&vec![a], &vec![u32::MAX; 3]);
    assert_eq!(pairs, vec![(0, 0)]);
    let obj = t.slot(0).unwrap();
    assert_eq!(obj.bbox, a);
    // A fresh phase, not an advanced one.
    assert_eq!(obj.animation_phase, seed_phase(u32::MAX));
}

#[test]
fn selection_prefers_the_smallest_box() {
    let mut t = tracker();
    let large = BBox::new(0, 0, 200, 200);
    let small = BBox::new(40, 40, 20, 20);
    let medium = BBox::new(30, 30, 60, 60);
    t.handle(select(2, 50, 50));
    assert_eq!(t.select_candidate(2, &vec![large, small, medium]), Some(1));
    assert_eq!(t.select_candidate(0, &vec![large, small, medium]), None);
    let pairs = t.update_with_seeds(&vec![large, small, medium], &vec![0; 3]);
    assert_eq!(pairs, vec![(2, 1)]);
    assert_eq!(t.slot(2).unwrap().bbox, small);
}

#[test]
fn selection_prefers_the_first_of_equal_boxes() {
    let mut t = tracker();
    let first = BBox::new(0, 0, 20, 30);
    let second = BBox::new(5, 5, 30, 20);
    t.handle(select(0, 10, 10));
    assert_eq!(t.select_candidate(0, &vec![first, second]), Some(0));
    assert_eq!(t.select_candidate(0, &vec![second, first]), Some(0));
    assert_eq!(t.select_candidate(7, &vec![second, first]), None);
}

#[test]
fn selection_that_hits_nothing_empties_the_slot() {
    let mut t = tracker();
    let a = BBox::new(0, 0, 100, 100);
    bind(&mut t, 1, a);
    t.handle(select(1, 500, 500));
    let pairs = t.update_with_seeds(&vec![a], &vec![0; 3]);
    assert!(pairs.is_empty());
    assert_eq!(t.slot(1), None);
}

#[test]
fn latest_selection_of_a_slot_survives() {
    let mut t = tracker();
    t.handle_all(&vec![select(0, 1, 1), select(2, 7, 8), select(0, 5, 6)]);
    assert_eq!(t.pending(0), Some(Selection { slot: 0, x: 5, y: 6 }));
    assert_eq!(t.pending(1), None);
    assert_eq!(t.pending(2), Some(Selection { slot: 2, x: 7, y: 8 }));
}

#[test]
fn selections_of_different_slots_both_bind() {
    let mut t = tracker();
    let a = BBox::new(0, 0, 10, 10);
    let b = BBox::new(45, 45, 10, 10);
    t.handle_all(&vec![select(0, 5, 5), select(1, 50, 50)]);
    let pairs = t.update_with_seeds(&vec![a, b], &vec![0, 1 << 31, 0]);
    assert_eq!(pairs, vec![(0, 0), (1, 1)]);
    assert_eq!(t.slot(0), Some(TrackedObject { bbox: a, band_index: 0, animation_phase: 0 }));
    assert_eq!(
        t.slot(1),
        Some(TrackedObject { bbox: b, band_index: 1, animation_phase: 3_141_592 })
    );
    assert_eq!(t.slot(2), None);
    for i in 0..3 {
        assert_eq!(t.pending(i), None);
    }
}

#[test]
fn selections_resolve_in_slot_order() {
    let mut t = tracker();
    let a = BBox::new(0, 0, 100, 100);
    // Slot 2 clicks first, slot 0 later, on the same object: slot 0 is
    // resolved first and takes it; the guard then keeps slot 2 off it.
    t.handle_all(&vec![select(2, 50, 50), select(0, 50, 50)]);
    let pairs = t.update_with_seeds(&vec![a], &vec![]);
    assert_eq!(pairs, vec![(0, 0)]);
    assert_eq!(t.slot(0).unwrap().bbox, a);
    assert_eq!(t.slot(0).unwrap().animation_phase, 0);
    assert_eq!(t.slot(2), None);
}

#[test]
fn a_detection_is_selected_once() {
    let mut t = tracker();
    // A box without area overlaps nothing, so no guard protects it; it is
    // still handed out only once.
    let point = BBox::new(5, 5, 0, 0);
    t.handle_all(&vec![select(0, 5, 5), select(1, 5, 5)]);
    let pairs = t.update_with_seeds(&vec![point], &vec![0, 0, 0]);
    assert_eq!(pairs, vec![(0, 0)]);
    assert_eq!(t.slot(0).unwrap().bbox, point);
    assert_eq!(t.slot(1), None);
}

#[test]
fn selection_of_a_missing_slot_is_dropped() {
    let mut t = tracker();
    t.handle(select(3, 1, 1));
    t.handle(select(1, 2, 2));
    t.handle(select(usize::MAX, 9, 9));
    assert_eq!(t.pending(0), None);
    assert_eq!(t.pending(1), Some(Selection { slot: 1, x: 2, y: 2 }));
    assert_eq!(t.pending(2), None);
    assert_eq!(t.pending(3), None);
}

#[test]
fn pending_selection_waits_for_detections() {
    let mut t = tracker();
    t.handle(select(0, 5, 5));
    t.set_intensities(&vec![1, 2, 3]);
    t.handle(UserInteractionSegMsg::RemoveObjectAt { x: 5, y: 5 });
    assert_eq!(t.pending(0), Some(Selection { slot: 0, x: 5, y: 5 }));
}

#[test]
fn a_failed_detection_changes_nothing() {
    let mut t = tracker();
    let a = BBox::new(0, 0, 100, 100);
    bind(&mut t, 1, a);
    t.handle(select(0, 300, 300));
    let pairs = t.update_if_detected(&None);
    assert!(pairs.is_empty());
    assert_eq!(t.slot(1).unwrap().bbox, a);
    assert_eq!(t.slot(1).unwrap().animation_phase, 0);
    assert_eq!(t.pending(0), Some(Selection { slot: 0, x: 300, y: 300 }));
    // The next detection that succeeds resolves the selection.
    let b = BBox::new(290, 290, 20, 20);
    let pairs = t.update_if_detected(&Some(vec![a, b]));
    assert_eq!(pairs, vec![(0, 1), (1, 0)]);
    assert_eq!(t.slot(0).unwrap().bbox, b);
    assert!(t.slot(0).unwrap().animation_phase < PHASE_TURN);
    assert_eq!(t.slot(1).unwrap().animation_phase, PHASE_PER_CYCLE);
    assert_eq!(t.pending(0), None);
}

#[test]
fn removal_empties_the_first_slot_under_the_point() {
    let mut t = tracker();
    let a = BBox::new(0, 0, 100, 100);
    let b = BBox::new(50, 50, 100, 100);
    bind(&mut t, 2, a);
    t.handle(select(1, 140, 140));
    let pairs = t.update_with_seeds(&vec![a, b], &vec![0; 3]);
    assert_eq!(pairs, vec![(1, 1), (2, 0)]);
    // The point lies in both boxes: the lower slot goes.
    t.handle(UserInteractionSegMsg::RemoveObjectAt { x: 75, y: 75 });
    assert_eq!(t.slot(1), None);
    assert_eq!(t.slot(2).unwrap().bbox, a);
    // A point in no box changes nothing.
    t.handle(UserInteractionSegMsg::RemoveObjectAt { x: 900, y: 900 });
    assert_eq!(t.slot(2).unwrap().bbox, a);
    // The border counts.
    t.handle(UserInteractionSegMsg::RemoveObjectAt { x: 100, y: 0 });
    assert_eq!(t.slot(2), None);
}

#[test]
fn clear_empties_everything() {
    let mut t = tracker();
    bind(&mut t, 0, BBox::new(0, 0, 10, 10));
    t.set_intensities(&vec![5, 6, 7]);
    t.handle(select(1, 3, 3));
    t.handle(UserInteractionSegMsg::ClearSelection);
    t.handle(select(2, 4, 4));
    t.handle(UserInteractionSegMsg::ClearSelection);
    for i in 0..3 {
        assert_eq!(t.slot(i), None);
        assert_eq!(t.pending(i), None);
    }
    assert_eq!(t.intensity(1), 6);
}

#[test]
fn commands_apply_in_order() {
    let mut t = tracker();
    bind(&mut t, 0, BBox::new(0, 0, 10, 10));
    t.handle_all(&vec![
        select(1, 4, 4),
        UserInteractionSegMsg::ClearSelection,
        select(2, 8, 8),
    ]);
    assert_eq!(t.slot(0), None);
    assert_eq!(t.pending(1), None);
    assert_eq!(t.pending(2), Some(Selection { slot: 2, x: 8, y: 8 }));
    t.handle_all(&vec![]);
    assert_eq!(t.pending(2), Some(Selection { slot: 2, x: 8, y: 8 }));
}

#[test]
fn a_detection_goes_to_one_slot_only() {
    let mut t = tracker();
    let a = BBox::new(0, 0, 100, 100);
    let b = BBox::new(50, 0, 100, 100);
    bind(&mut t, 0, a);
    t.handle(select(1, 140, 50));
    let pairs = t.update_with_seeds(&vec![a, b], &vec![0; 3]);
    assert_eq!(pairs, vec![(1, 1), (0, 0)]);
    // Only one detection is left: both slots overlap it, the lower one gets it.
    let d = BBox::new(25, 0, 100, 100);
    assert!(a.iou(&d).exceeds(&Ratio::new(3, 10)));
    assert!(b.iou(&d).exceeds(&Ratio::new(3, 10)));
    let pairs = t.update_with_seeds(&vec![d], &vec![0; 3]);
    assert_eq!(pairs, vec![(0, 0)]);
    assert_eq!(t.slot(0).unwrap().bbox, d);
    assert_eq!(t.slot(1), None);
}

#[test]
fn the_selected_detection_is_not_matched_again() {
    let mut t = tracker();
    let a = BBox::new(0, 0, 100, 100);
    bind(&mut t, 0, a);
    // Slot 1 selects a box that slot 0's object also overlaps, though not
    // enough to guard it.
    let d = BBox::new(30, 0, 100, 100);
    assert!(a.iou(&d).exceeds(&Ratio::new(3, 10)));
    assert!(!a.iou(&d).exceeds(&Ratio::new(6, 10)));
    t.handle(select(1, 120, 50));
    let pairs = t.update_with_seeds(&vec![d], &vec![0; 3]);
    assert_eq!(pairs, vec![(1, 0)]);
    assert_eq!(t.slot(1).unwrap().bbox, d);
    assert_eq!(t.slot(0), None);
}

#[test]
fn matching_takes_the_largest_overlap() {
    let mut t = tracker();
    let a = BBox::new(0, 0, 100, 100);
    bind(&mut t, 0, a);
    let near = BBox::new(5, 0, 100, 100);
    let nearer = BBox::new(2, 0, 100, 100);
    let far = BBox::new(40, 0, 100, 100);
    let pairs = t.update_with_seeds(&vec![far, near, nearer], &vec![0; 3]);
    assert_eq!(pairs, vec![(0, 2)]);
    assert_eq!(t.slot(0).unwrap().bbox, nearer);
}

#[test]
fn matching_takes_the_first_of_equal_overlaps() {
    let taken: FnvHashSet<usize> = FnvHashSet::default();
    let prev = BBox::new(10, 10, 100, 100);
    let left = BBox::new(5, 10, 100, 100);
    let right = BBox::new(15, 10, 100, 100);
    let thr = Ratio::new(3, 10);
    assert_eq!(find_match(&prev, &vec![right, left], &taken, &thr), Some(0));
    assert_eq!(find_match(&prev, &vec![left, right], &taken, &thr), Some(0));
}

#[test]
fn matching_skips_taken_detections() {
    let mut taken: FnvHashSet<usize> = FnvHashSet::default();
    let prev = BBox::new(0, 0, 100, 100);
    let dets = vec![prev, BBox::new(10, 0, 100, 100), BBox::new(500, 0, 10, 10)];
    let thr = Ratio::new(3, 10);
    assert_eq!(find_match(&prev, &dets, &taken, &thr), Some(0));
    taken.insert(0);
    assert_eq!(find_match(&prev, &dets, &taken, &thr), Some(1));
    taken.insert(1);
    assert_eq!(find_match(&prev, &dets, &taken, &thr), None);
    assert_eq!(find_match(&prev, &vec![], &taken, &thr), None);
}

#[test]
fn phase_follows_the_band_intensity() {
    let mut t = tracker();
    let a = BBox::new(0, 0, 100, 100);
    bind(&mut t, 1, a);
    t.set_intensities(&vec![1_000_000, 500_000, 0]);
    let _ = t.update_with_seeds(&vec![a], &vec![0; 3]);
    assert_eq!(t.slot(1).unwrap().animation_phase, 50_000 + 50_000);
    t.set_intensities(&vec![0, 1_000_000, 0]);
    let _ = t.update_with_seeds(&vec![a], &vec![0; 3]);
    assert_eq!(t.slot(1).unwrap().animation_phase, 100_000 + 150_000);
}

#[test]
fn phase_steps() {
    assert_eq!(advance_phase(0, 0), 50_000);
    assert_eq!(advance_phase(7, 1_000_000), 150_007);
    assert_eq!(advance_phase(0, 333_333), 83_333);
    assert_eq!(advance_phase(0, 9), 50_000);
    assert_eq!(advance_phase(u64::MAX - 10, 0), u64::MAX);
    assert_eq!(advance_phase(u64::MAX - 50_000, 0), u64::MAX);
    assert_eq!(advance_phase(u64::MAX - 50_001, 0), u64::MAX - 1);
}

#[test]
fn seed_phases() {
    assert_eq!(seed_phase(0), 0);
    assert_eq!(seed_phase(1 << 31), 3_141_592);
    assert_eq!(seed_phase(1 << 30), 1_570_796);
    assert_eq!(seed_phase(u32::MAX), PHASE_TURN - 1);
}

#[test]
fn update_seeds_a_phase_within_one_turn() {
    for _ in 0..20 {
        let mut t = tracker();
        let a = BBox::new(0, 0, 100, 100);
        t.handle(select(0, 50, 50));
        let pairs = t.update(&vec![a]);
        assert_eq!(pairs, vec![(0, 0)]);
        let obj = t.slot(0).unwrap();
        assert_eq!(obj.bbox, a);
        assert_eq!(obj.band_index, 0);
        assert!(obj.animation_phase < PHASE_TURN);
        let before = obj.animation_phase;
        let pairs = t.update(&vec![a]);
        assert_eq!(pairs, vec![(0, 0)]);
        assert_eq!(t.slot(0).unwrap().animation_phase, before + PHASE_PER_CYCLE);
    }
}

#[test]
fn intensities_are_cut_or_zero_filled() {
    let mut t = tracker();
    t.set_intensities(&vec![10, 20, 30, 40, 50]);
    assert_eq!((t.intensity(0), t.intensity(1), t.intensity(2)), (10, 20, 30));
    t.set_intensities(&vec![7]);
    assert_eq!((t.intensity(0), t.intensity(1), t.intensity(2)), (7, 0, 0));
    t.set_intensities(&vec![]);
    assert_eq!((t.intensity(0), t.intensity(1), t.intensity(2)), (0, 0, 0));
}

#[test]
fn the_newest_intensities_count() {
    let mut t = tracker();
    t.set_latest_intensities(&vec![vec![1, 1, 1], vec![2, 2, 2], vec![3, 4]]);
    assert_eq!((t.intensity(0), t.intensity(1), t.intensity(2)), (3, 4, 0));
    t.set_latest_intensities(&vec![]);
    assert_eq!((t.intensity(0), t.intensity(1), t.intensity(2)), (3, 4, 0));
}

#[test]
fn tracker_without_slots() {
    let mut t = Tracker::new(0, TrackerConfig::standard());
    assert_eq!(t.num_slots(), 0);
    t.handle(select(0, 1, 1));
    assert_eq!(t.pending(0), None);
    t.set_intensities(&vec![1, 2]);
    let pairs = t.update(&vec![BBox::new(0, 0, 5, 5)]);
    assert!(pairs.is_empty());
}

#[test]
fn loop_steps() {
    assert_eq!(next_step(false, false, true), CycleStep::Detect);
    assert_eq!(next_step(false, false, false), CycleStep::Wait);
    assert_eq!(next_step(true, false, true), CycleStep::Stop);
    assert_eq!(next_step(false, true, true), CycleStep::Stop);
    assert_eq!(next_step(true, true, false), CycleStep::Stop);
}
