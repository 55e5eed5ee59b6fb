use sam_cam_bam::geometry::BBox;
use sam_cam_bam::geometry::Ratio;

fn one() -> Ratio {
    Ratio::new(1, 1)
}

fn zero() -> Ratio {
    Ratio::new(0, 1)
}

#[test]
fn iou_of_a_box_with_itself_is_one() {
    let boxes = [
        BBox::new(0, 0, 1, 1),
        BBox::new(10, 20, 30, 40),
        BBox::new(-500, -7, 65535, 65535),
        BBox::new(i32::MAX, i32::MIN, 3, 9),
    ];
    for b in boxes.iter() {
        let r = b.iou(b);
        assert_eq!(r.num, r.den);
        assert!(r.den > 0);
        assert!(r.same_value(&one()));
    }
}

#[test]
fn iou_of_disjoint_boxes_is_zero() {
    let a = BBox::new(0, 0, 10, 10);
    let beside = BBox::new(20, 0, 10, 10);
    let below = BBox::new(0, 30, 10, 10);
    let touching = BBox::new(10, 0, 10, 10);
    for b in [beside, below, touching].iter() {
        let r = a.iou(b);
        assert_eq!(r.num, 0);
        assert!(r.same_value(&zero()));
        assert!(!r.exceeds(&zero()));
    }
}

#[test]
fn iou_is_symmetric() {
    let a = BBox::new(0, 0, 10, 10);
    let b = BBox::new(5, 3, 12, 4);
    let ab = a.iou(&b);
    let ba = b.iou(&a);
    assert_eq!(ab.num, ba.num);
    assert_eq!(ab.den, ba.den);
    assert!(ab.same_value(&ba));
}

#[test]
fn iou_of_half_shifted_boxes_is_one_third() {
    let a = BBox::new(0, 0, 10, 10);
    let b = BBox::new(5, 0, 10, 10);
    assert_eq!(a.intersect(&b), 50);
    assert_eq!(a.union(&b), 150);
    let r = a.iou(&b);
    assert_eq!(r.num, 50);
    assert_eq!(r.den, 150);
    assert!(r.same_value(&Ratio::new(1, 3)));
    assert!(r.exceeds(&Ratio::new(3, 10)));
    assert!(!r.exceeds(&Ratio::new(1, 3)));
}

#[test]
fn iou_of_boxes_without_area_is_zero() {
    let a = BBox::new(4, 4, 0, 0);
    let r = a.iou(&a);
    assert_eq!(r.den, 0);
    assert!(r.same_value(&zero()));
    assert!(!r.exceeds(&Ratio::new(3, 10)));
}

#[test]
fn area_and_corners() {
    let b = BBox::new(-5, 7, 20, 3);
    assert_eq!(b.area(), 60);
    assert_eq!(b.xmax(), 15);
    assert_eq!(b.ymax(), 10);
    let far = BBox::new(i32::MAX, i32::MAX, 65535, 65535);
    assert_eq!(far.xmax(), i32::MAX as i64 + 65535);
    assert_eq!(far.area(), 65535u64 * 65535u64);
}

#[test]
fn contains_counts_the_border() {
    let b = BBox::new(10, 10, 5, 5);
    assert!(b.contains(10, 10));
    assert!(b.contains(15, 15));
    assert!(b.contains(12, 13));
    assert!(!b.contains(9, 12));
    assert!(!b.contains(16, 12));
    assert!(!b.contains(12, 9));
    assert!(!b.contains(12, 16));
}

#[test]
fn contained_box_overlap() {
    let outer = BBox::new(0, 0, 100, 100);
    let inner = BBox::new(0, 0, 100, 80);
    let r = outer.iou(&inner);
    assert!(r.same_value(&Ratio::new(8, 10)));
}

#[test]
fn ratio_order() {
    assert!(Ratio::new(1, 2).exceeds(&Ratio::new(1, 3)));
    assert!(!Ratio::new(1, 3).exceeds(&Ratio::new(1, 2)));
    assert!(!Ratio::new(2, 4).exceeds(&Ratio::new(1, 2)));
    assert!(Ratio::new(2, 4).same_value(&Ratio::new(1, 2)));
    assert!(!Ratio::new(2, 4).same_value(&Ratio::new(1, 3)));
    assert!(Ratio::new(u64::MAX, 1).exceeds(&Ratio::new(u64::MAX - 1, 1)));
    assert!(Ratio::new(u64::MAX, u64::MAX).same_value(&Ratio::new(1, 1)));
}

#[test]
fn ratio_with_zero_denominator_is_zero() {
    assert!(Ratio::new(5, 0).same_value(&Ratio::new(0, 7)));
    assert!(!Ratio::new(5, 0).exceeds(&Ratio::new(0, 1)));
    assert!(Ratio::new(1, 100).exceeds(&Ratio::new(5, 0)));
}

#[test]
fn overlap_under_jitter() {
    let a = BBox::new(0, 0, 100, 100);
    for (dx, dy) in [(10, -10), (-10, 10), (10, 10), (0, 10), (3, -7), (0, 0)].iter() {
        let b = BBox::new(*dx, *dy, 100, 100);
        let r = a.iou(&b);
        assert!(r.exceeds(&Ratio::new(2, 3)));
        assert!(r.exceeds(&Ratio::new(3, 10)));
    }
    let corner = BBox::new(10, 10, 100, 100);
    assert_eq!(a.intersect(&corner), 8100);
    assert_eq!(a.union(&corner), 11900);
    // One pixel more than a tenth can fall below two thirds.
    let further = BBox::new(11, 11, 100, 100);
    assert!(!a.iou(&further).exceeds(&Ratio::new(2, 3)));
}
