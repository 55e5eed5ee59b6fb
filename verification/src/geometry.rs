//! Axis-aligned pixel boxes and exact overlap ratios.
//!
//! Boxes live in the pixel space of the source image: the origin is a signed
//! pixel position and the sides are unsigned pixel counts. Overlap ratios are
//! kept as exact fractions, so that comparing one against a threshold or
//! against another ratio never rounds.

use vstd::prelude::*;

verus! {

/// A non-negative fraction `num / den`. A zero denominator stands for the
/// value zero, so every pair of fields denotes a number.
#[derive(Clone, Copy, Debug)]
pub struct Ratio {
    pub num: u64,
    pub den: u64,
}

impl Ratio {
    /// The number this fraction denotes.
    pub open spec fn value(self) -> real {
        if self.den == 0 {
            0 as real
        } else {
            self.num as real / self.den as real
        }
    }

    pub fn new(num: u64, den: u64) -> (r: Ratio)
        ensures
            r.num == num,
            r.den == den,
    {
        Ratio { num, den }
    }

    /// Strict comparison of the denoted numbers.
    pub fn exceeds(&self, other: &Ratio) -> (r: bool)
        ensures
            r == (self.value() > other.value()),
    {
        let an: u128 = if self.den == 0 { 0 } else { self.num as u128 };
        let ad: u128 = if self.den == 0 { 1 } else { self.den as u128 };
        let bn: u128 = if other.den == 0 { 0 } else { other.num as u128 };
        let bd: u128 = if other.den == 0 { 1 } else { other.den as u128 };
        proof {
            lemma_product_fits(an as int, bd as int);
            lemma_product_fits(bn as int, ad as int);
            lemma_fraction_order(an as int, ad as int, bn as int, bd as int);
        }
        an * bd > bn * ad
    }

    /// Equality of the denoted numbers (`1/2` and `2/4` are the same value).
    pub fn same_value(&self, other: &Ratio) -> (r: bool)
        ensures
            r == (self.value() == other.value()),
    {
        let an: u128 = if self.den == 0 { 0 } else { self.num as u128 };
        let ad: u128 = if self.den == 0 { 1 } else { self.den as u128 };
        let bn: u128 = if other.den == 0 { 0 } else { other.num as u128 };
        let bd: u128 = if other.den == 0 { 1 } else { other.den as u128 };
        proof {
            lemma_product_fits(an as int, bd as int);
            lemma_product_fits(bn as int, ad as int);
            lemma_fraction_order(an as int, ad as int, bn as int, bd as int);
            lemma_fraction_order(bn as int, bd as int, an as int, ad as int);
        }
        an * bd == bn * ad
    }
}

/// The product of two 64-bit values fits in 128 bits.
proof fn lemma_product_fits(a: int, b: int)
    requires
        0 <= a <= u64::MAX,
        0 <= b <= u64::MAX,
    ensures
        0 <= a * b <= u128::MAX,
{
    assert(0 <= a * b <= 0xffff_ffff_ffff_ffff * 0xffff_ffff_ffff_ffff) by (nonlinear_arith)
        requires
            0 <= a <= 0xffff_ffff_ffff_ffff,
            0 <= b <= 0xffff_ffff_ffff_ffff,
    ;
}

/// Fractions with positive denominators are ordered as their cross products.
pub proof fn lemma_fraction_order(an: int, ad: int, bn: int, bd: int)
    requires
        ad > 0,
        bd > 0,
    ensures
        (an as real / ad as real > bn as real / bd as real) <==> an * bd > bn * ad,
{
    let a = an as real;
    let b = ad as real;
    let c = bn as real;
    let d = bd as real;
    assert((a / b > c / d) <==> a * d > c * b) by (nonlinear_arith)
        requires
            b > 0 as real,
            d > 0 as real,
    ;
    assert((an * bd) as real == a * d) by (nonlinear_arith)
        requires
            a == an as real,
            d == bd as real,
    ;
    assert((bn * ad) as real == c * b) by (nonlinear_arith)
        requires
            c == bn as real,
            b == ad as real,
    ;
}

/// Length of the overlap of the intervals `[lo_a, hi_a]` and `[lo_b, hi_b]`.
pub open spec fn overlap_1d(lo_a: int, hi_a: int, lo_b: int, hi_b: int) -> int {
    let lo = if lo_a >= lo_b { lo_a } else { lo_b };
    let hi = if hi_a <= hi_b { hi_a } else { hi_b };
    if hi > lo {
        hi - lo
    } else {
        0
    }
}

/// An axis-aligned box: top-left corner and side lengths, in pixels.
#[derive(Clone, Copy, Debug, PartialEq, Eq, Structural)]
pub struct BBox {
    pub xmin: i32,
    pub ymin: i32,
    pub width: u16,
    pub height: u16,
}

impl BBox {
    pub open spec fn spec_xmax(self) -> int {
        self.xmin + self.width
    }

    pub open spec fn spec_ymax(self) -> int {
        self.ymin + self.height
    }

    pub open spec fn spec_area(self) -> int {
        self.width * self.height
    }

    /// Area shared by the two boxes.
    pub open spec fn spec_intersect(self, other: BBox) -> int {
        overlap_1d(self.xmin as int, self.spec_xmax(), other.xmin as int, other.spec_xmax())
            * overlap_1d(self.ymin as int, self.spec_ymax(), other.ymin as int, other.spec_ymax())
    }

    /// Area covered by at least one of the two boxes.
    pub open spec fn spec_union(self, other: BBox) -> int {
        self.spec_area() + other.spec_area() - self.spec_intersect(other)
    }

    /// Intersection over union. Two boxes that cover no area at all have
    /// ratio zero: such a pair passes no threshold.
    pub open spec fn spec_iou(self, other: BBox) -> real {
        if self.spec_union(other) == 0 {
            0 as real
        } else {
            self.spec_intersect(other) as real / self.spec_union(other) as real
        }
    }

    /// The point lies inside the box or on its border.
    pub open spec fn spec_contains(self, x: int, y: int) -> bool {
        &&& self.xmin <= x <= self.spec_xmax()
        &&& self.ymin <= y <= self.spec_ymax()
    }

    /// The boxes share no area: one lies entirely beside, above or below the
    /// other (touching borders count as disjoint).
    pub open spec fn disjoint(self, other: BBox) -> bool {
        ||| self.spec_xmax() <= other.xmin
        ||| other.spec_xmax() <= self.xmin
        ||| self.spec_ymax() <= other.ymin
        ||| other.spec_ymax() <= self.ymin
    }

    pub fn new(xmin: i32, ymin: i32, width: u16, height: u16) -> (b: BBox)
        ensures
            b == (BBox { xmin, ymin, width, height }),
    {
        BBox { xmin, ymin, width, height }
    }

    pub fn xmax(&self) -> (r: i64)
        ensures
            r == self.spec_xmax(),
    {
        self.xmin as i64 + self.width as i64
    }

    pub fn ymax(&self) -> (r: i64)
        ensures
            r == self.spec_ymax(),
    {
        self.ymin as i64 + self.height as i64
    }

    pub fn area(&self) -> (r: u64)
        ensures
            r == self.spec_area(),
            r <= 0xfffe_0001,
    {
        proof {
            lemma_side_product(self.width as int, self.height as int);
        }
        self.width as u64 * self.height as u64
    }

    pub fn intersect(&self, other: &BBox) -> (r: u64)
        ensures
            r == self.spec_intersect(*other),
            r <= self.spec_area(),
            r <= other.spec_area(),
    {
        let w: u64 = overlap_len(self.xmin, self.width, other.xmin, other.width);
        let h: u64 = overlap_len(self.ymin, self.height, other.ymin, other.height);
        proof {
            lemma_side_product(w as int, h as int);
            lemma_intersect_bounds(*self, *other);
        }
        w * h
    }

    pub fn union(&self, other: &BBox) -> (r: u64)
        ensures
            r == self.spec_union(*other),
            r >= self.spec_intersect(*other),
    {
        let a: u64 = self.area();
        let b: u64 = other.area();
        let i: u64 = self.intersect(other);
        a + b - i
    }

    /// Intersection over union, as the exact fraction of the two areas.
    pub fn iou(&self, other: &BBox) -> (r: Ratio)
        ensures
            r.num == self.spec_intersect(*other),
            r.den == self.spec_union(*other),
            r.value() == self.spec_iou(*other),
    {
        Ratio { num: self.intersect(other), den: self.union(other) }
    }

    pub fn contains(&self, x: i32, y: i32) -> (r: bool)
        ensures
            r == self.spec_contains(x as int, y as int),
    {
        let px: i64 = x as i64;
        let py: i64 = y as i64;
        self.xmin as i64 <= px && px <= self.xmax() && self.ymin as i64 <= py && py <= self.ymax()
    }

}

/// Overlap of two pixel runs given by start and length.
fn overlap_len(lo_a: i32, len_a: u16, lo_b: i32, len_b: u16) -> (r: u64)
    ensures
        r == overlap_1d(lo_a as int, lo_a + len_a, lo_b as int, lo_b + len_b),
        r <= len_a,
        r <= len_b,
{
    let hi_a: i64 = lo_a as i64 + len_a as i64;
    let hi_b: i64 = lo_b as i64 + len_b as i64;
    let lo: i64 = if lo_a >= lo_b { lo_a as i64 } else { lo_b as i64 };
    let hi: i64 = if hi_a <= hi_b { hi_a } else { hi_b };
    if hi > lo {
        (hi - lo) as u64
    } else {
        0
    }
}

proof fn lemma_side_product(w: int, h: int)
    requires
        0 <= w <= u16::MAX,
        0 <= h <= u16::MAX,
    ensures
        0 <= w * h <= 0xfffe_0001,
{
    assert(0 <= w * h <= 0xffff * 0xffff) by (nonlinear_arith)
        requires
            0 <= w <= 0xffff,
            0 <= h <= 0xffff,
    ;
}

/// The shared area is non-negative and no larger than either box.
pub proof fn lemma_intersect_bounds(a: BBox, b: BBox)
    ensures
        0 <= a.spec_intersect(b) <= a.spec_area(),
        a.spec_intersect(b) <= b.spec_area(),
        a.spec_union(b) >= a.spec_area(),
        a.spec_union(b) >= b.spec_area(),
        a.spec_union(b) >= a.spec_intersect(b),
{
    let w = overlap_1d(a.xmin as int, a.spec_xmax(), b.xmin as int, b.spec_xmax());
    let h = overlap_1d(a.ymin as int, a.spec_ymax(), b.ymin as int, b.spec_ymax());
    assert(0 <= w <= a.width && w <= b.width);
    assert(0 <= h <= a.height && h <= b.height);
    assert(0 <= w * h && w * h <= a.width * a.height && w * h <= b.width * b.height)
        by (nonlinear_arith)
        requires
            0 <= w <= a.width,
            w <= b.width,
            0 <= h <= a.height,
            h <= b.height,
    ;
}

/// The overlap ratio lies between zero and one.
pub proof fn lemma_iou_range(a: BBox, b: BBox)
    ensures
        0 as real <= a.spec_iou(b) <= 1 as real,
{
    lemma_intersect_bounds(a, b);
    let i = a.spec_intersect(b);
    let u = a.spec_union(b);
    if u != 0 {
        let ir = i as real;
        let ur = u as real;
        assert(0 as real <= ir / ur <= 1 as real) by (nonlinear_arith)
            requires
                0 as real <= ir <= ur,
                ur > 0 as real,
        ;
    }
}

/// A box that covers some area overlaps itself with ratio exactly one.
pub proof fn lemma_iou_identical(a: BBox)
    requires
        a.spec_area() > 0,
    ensures
        a.spec_iou(a) == 1 as real,
{
    let w = overlap_1d(a.xmin as int, a.spec_xmax(), a.xmin as int, a.spec_xmax());
    let h = overlap_1d(a.ymin as int, a.spec_ymax(), a.ymin as int, a.spec_ymax());
    assert(w == a.width);
    assert(h == a.height);
    assert(a.spec_intersect(a) == a.spec_area());
    let ur = a.spec_union(a) as real;
    assert(ur / ur == 1 as real) by (nonlinear_arith)
        requires
            ur > 0 as real,
    ;
}

/// Boxes that share no area overlap with ratio exactly zero.
pub proof fn lemma_iou_disjoint(a: BBox, b: BBox)
    requires
        a.disjoint(b),
    ensures
        a.spec_intersect(b) == 0,
        a.spec_iou(b) == 0 as real,
{
    let w = overlap_1d(a.xmin as int, a.spec_xmax(), b.xmin as int, b.spec_xmax());
    let h = overlap_1d(a.ymin as int, a.spec_ymax(), b.ymin as int, b.spec_ymax());
    assert(w == 0 || h == 0);
    assert(w * h == 0) by (nonlinear_arith)
        requires
            w == 0 || h == 0,
    ;
    let ur = a.spec_union(b) as real;
    if a.spec_union(b) != 0 {
        assert(0 as real / ur == 0 as real) by (nonlinear_arith)
            requires
                ur != 0 as real,
        ;
    }
}

/// The overlap ratio does not depend on the order of the two boxes.
pub proof fn lemma_iou_symmetric(a: BBox, b: BBox)
    ensures
        a.spec_intersect(b) == b.spec_intersect(a),
        a.spec_union(b) == b.spec_union(a),
        a.spec_iou(b) == b.spec_iou(a),
{
    let w1 = overlap_1d(a.xmin as int, a.spec_xmax(), b.xmin as int, b.spec_xmax());
    let w2 = overlap_1d(b.xmin as int, b.spec_xmax(), a.xmin as int, a.spec_xmax());
    let h1 = overlap_1d(a.ymin as int, a.spec_ymax(), b.ymin as int, b.spec_ymax());
    let h2 = overlap_1d(b.ymin as int, b.spec_ymax(), a.ymin as int, a.spec_ymax());
    assert(w1 == w2);
    assert(h1 == h2);
}

/// `b` is `a` after jitter: a box of the same size that covers some area,
/// moved by at most a tenth of its width and a tenth of its height.
pub open spec fn jitters(a: BBox, b: BBox) -> bool {
    &&& a.width == b.width
    &&& a.height == b.height
    &&& a.spec_area() > 0
    &&& -(a.width as int) <= 10 * (b.xmin - a.xmin) <= a.width
    &&& -(a.height as int) <= 10 * (b.ymin - a.ymin) <= a.height
}

/// Overlap under jitter: a box that keeps its size and moves by at most a
/// tenth of its width and a tenth of its height still overlaps where it was
/// by more than three tenths (in fact by more than two thirds).
pub proof fn lemma_jitter_overlap(a: BBox, b: BBox)
    requires
        jitters(a, b),
    ensures
        a.spec_iou(b) > (Ratio { num: 3, den: 10 }).value(),
        3 * a.spec_intersect(b) > 2 * a.spec_union(b),
{
    let w = a.width as int;
    let h = a.height as int;
    let dx = if b.xmin >= a.xmin {
        b.xmin - a.xmin
    } else {
        a.xmin - b.xmin
    };
    let dy = if b.ymin >= a.ymin {
        b.ymin - a.ymin
    } else {
        a.ymin - b.ymin
    };
    assert(w > 0 && h > 0) by (nonlinear_arith)
        requires
            w * h > 0,
            w >= 0,
            h >= 0,
    ;
    let ow = overlap_1d(a.xmin as int, a.spec_xmax(), b.xmin as int, b.spec_xmax());
    let oh = overlap_1d(a.ymin as int, a.spec_ymax(), b.ymin as int, b.spec_ymax());
    assert(ow == w - dx);
    assert(oh == h - dy);
    let inter = a.spec_intersect(b);
    let area = w * h;
    assert(inter == ow * oh);
    assert(100 * (ow * oh) >= 81 * (w * h)) by (nonlinear_arith)
        requires
            10 * ow >= 9 * w,
            10 * oh >= 9 * h,
            w > 0,
            h > 0,
    ;
    let union = a.spec_union(b);
    lemma_intersect_bounds(a, b);
    assert(union == 2 * area - inter);
    assert(3 * inter > 2 * union);
    assert(10 * inter > 3 * union);
    lemma_fraction_order(inter, union, 3, 10);
}

} // verus!
