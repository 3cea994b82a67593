//! Shape geometry: declarative shapes with rotation and stroke, converted
//! into rotated, anchor-aligned corner positions and bounding boxes.
//!
//! Lengths are integer units; angles are millidegrees.
use vstd::prelude::*;
use crate::num::{
    SCALE, sdiv, div_trunc, sin_mdeg, cos_mdeg, sin_fp, cos_fp, sqrt_floor, isqrt,
    lemma_sqrt_floor_is_isqrt, lemma_isqrt_unique,
};

verus! {

/// The largest magnitude a coordinate or size may carry.
pub const MAX_COORD: i64 = 0x400_0000;

/// The largest magnitude a rotation may carry, in millidegrees.
pub const MAX_ROT: i64 = 0x100_0000_0000;

/// A shape descriptor: stroke width, size `(w, h)`, rotation in
/// millidegrees, and for a rounded rectangle a corner radius.
#[derive(Debug, Clone, Copy, PartialEq)]
pub enum ShapeType {
    Ellipse(i64, (i64, i64), i64),
    Rectangle(i64, (i64, i64), i64),
    RoundedRectangle(i64, (i64, i64), i64, i64),
}

impl ShapeType {
    /// The raw stroke width of the descriptor.
    pub open spec fn spec_stroke_raw(&self) -> int {
        match *self {
            ShapeType::Ellipse(s, _, _) => s as int,
            ShapeType::Rectangle(s, _, _) => s as int,
            ShapeType::RoundedRectangle(s, _, _, _) => s as int,
        }
    }

    /// The size of the descriptor.
    pub open spec fn spec_wh(&self) -> (int, int) {
        match *self {
            ShapeType::Ellipse(_, (w, h), _) => (w as int, h as int),
            ShapeType::Rectangle(_, (w, h), _) => (w as int, h as int),
            ShapeType::RoundedRectangle(_, (w, h), _, _) => (w as int, h as int),
        }
    }

    /// The rotation of the descriptor, in millidegrees.
    pub open spec fn spec_angle(&self) -> int {
        match *self {
            ShapeType::Ellipse(_, _, a) => a as int,
            ShapeType::Rectangle(_, _, a) => a as int,
            ShapeType::RoundedRectangle(_, _, a, _) => a as int,
        }
    }

    /// A descriptor whose fields the engine accepts: nonnegative sizes and
    /// stroke within [`MAX_COORD`], rotation within [`MAX_ROT`].
    pub open spec fn well_formed(&self) -> bool {
        let (w, h) = self.spec_wh();
        &&& 0 <= self.spec_stroke_raw() <= MAX_COORD
        &&& 0 <= w <= MAX_COORD
        &&& 0 <= h <= MAX_COORD
        &&& -MAX_ROT <= self.spec_angle() <= MAX_ROT
        &&& match *self {
            ShapeType::RoundedRectangle(_, _, _, c) => 0 <= c <= MAX_COORD,
            _ => true,
        }
    }

    /// The stroke width clamped so a stroke never exceeds the shape's own
    /// radius, half the smaller extent.
    pub open spec fn spec_stroke(&self) -> int {
        let (w, h) = self.spec_wh();
        let m = if w <= h { w } else { h };
        let half = m / 2;
        if self.spec_stroke_raw() <= half {
            self.spec_stroke_raw()
        } else {
            half
        }
    }

    /// The stroke width, clamped to half the smaller of width and height.
    pub fn stroke(&self) -> (r: i64)
        requires
            self.well_formed(),
        ensures
            r == self.spec_stroke(),
    {
        let (w, h) = self.wh_pair();
        let m: i64 = if w <= h { w } else { h };
        let half: i64 = m / 2;
        let s = self.stroke_raw();
        if s <= half { s } else { half }
    }

    fn stroke_raw(&self) -> (r: i64)
        ensures
            r == self.spec_stroke_raw(),
    {
        match *self {
            ShapeType::Ellipse(s, _, _) => s,
            ShapeType::Rectangle(s, _, _) => s,
            ShapeType::RoundedRectangle(s, _, _, _) => s,
        }
    }

    /// The rotation angle in millidegrees.
    pub fn angle(&self) -> (r: i64)
        ensures
            r == self.spec_angle(),
    {
        match *self {
            ShapeType::Ellipse(_, _, a) => a,
            ShapeType::Rectangle(_, _, a) => a,
            ShapeType::RoundedRectangle(_, _, a, _) => a,
        }
    }

    /// The width and height.
    pub fn wh(&self) -> (r: [i64; 2])
        ensures
            r@ == seq![self.spec_wh().0 as i64, self.spec_wh().1 as i64],
    {
        let (w, h) = self.wh_pair();
        [w, h]
    }

    fn wh_pair(&self) -> (r: (i64, i64))
        ensures
            r.0 == self.spec_wh().0,
            r.1 == self.spec_wh().1,
    {
        match *self {
            ShapeType::Ellipse(_, (w, h), _) => (w, h),
            ShapeType::Rectangle(_, (w, h), _) => (w, h),
            ShapeType::RoundedRectangle(_, (w, h), _, _) => (w, h),
        }
    }
}

/// The absolute value of a fixed-point trigonometric coefficient.
pub open spec fn spec_abs(a: int) -> int {
    if a >= 0 { a } else { -a }
}

/// The half extents of the axis-aligned box around a rotated ellipse with
/// half axes `rx, ry`: the classic rotated-ellipse formula
/// `sqrt(rx^2 cos^2 + ry^2 sin^2)` at fixed-point scale.
pub open spec fn spec_ellipse_half_extents(rx: int, ry: int, sin: int, cos: int) -> (int, int) {
    let hw = sqrt_floor(rx * cos * (rx * cos) + ry * sin * (ry * sin)) / (SCALE as int);
    let hh = sqrt_floor(rx * sin * (rx * sin) + ry * cos * (ry * cos)) / (SCALE as int);
    (hw, hh)
}

/// The size of the axis-aligned bounding box of the rotated shape.
pub open spec fn spec_bounding_size(shape: ShapeType) -> (int, int) {
    let (w, h) = shape.spec_wh();
    let sin = spec_abs(sin_mdeg(shape.spec_angle()));
    let cos = spec_abs(cos_mdeg(shape.spec_angle()));
    match shape {
        ShapeType::Ellipse(_, _, _) => {
            let (hw, hh) = spec_ellipse_half_extents(w / 2, h / 2, sin, cos);
            (2 * hw, 2 * hh)
        },
        _ => {
            let hw = ((w / 2) * cos + (h / 2) * sin) / (SCALE as int);
            let hh = ((w / 2) * sin + (h / 2) * cos) / (SCALE as int);
            (2 * hw, 2 * hh)
        },
    }
}

/// Nonnegative products of bounded coordinates and trigonometric
/// coefficients stay well inside the machine range.
proof fn lemma_coord_trig_product(a: int, t: int)
    requires
        0 <= a <= MAX_COORD,
        0 <= t <= SCALE,
    ensures
        0 <= a * t <= 0x400_0000 * 0x10000,
{
    vstd::arithmetic::mul::lemma_mul_nonnegative(a, t);
    vstd::arithmetic::mul::lemma_mul_upper_bound(a, 0x400_0000, t, 0x10000);
}

/// Executable half extents of the box around a rotated ellipse.
fn ellipse_half_extents(rx: i64, ry: i64, sin: i64, cos: i64) -> (r: (i64, i64))
    requires
        0 <= rx <= MAX_COORD,
        0 <= ry <= MAX_COORD,
        0 <= sin <= SCALE,
        0 <= cos <= SCALE,
    ensures
        (r.0 as int, r.1 as int) == spec_ellipse_half_extents(
            rx as int, ry as int, sin as int, cos as int),
        0 <= r.0 <= 2 * MAX_COORD,
        0 <= r.1 <= 2 * MAX_COORD,
{
    proof {
        lemma_coord_trig_product(rx as int, sin as int);
        lemma_coord_trig_product(rx as int, cos as int);
        lemma_coord_trig_product(ry as int, sin as int);
        lemma_coord_trig_product(ry as int, cos as int);
    }
    let a: u128 = (rx * cos) as u128;
    let b: u128 = (ry * sin) as u128;
    let c: u128 = (rx * sin) as u128;
    let d: u128 = (ry * cos) as u128;
    proof {
        lemma_sq_bound(a as int);
        lemma_sq_bound(b as int);
        lemma_sq_bound(c as int);
        lemma_sq_bound(d as int);
    }
    let sw: u128 = isqrt(a * a + b * b);
    let sh: u128 = isqrt(c * c + d * d);
    proof {
        lemma_isqrt_of_sum_bounded(a as int, b as int, sw as int);
        lemma_isqrt_of_sum_bounded(c as int, d as int, sh as int);
    }
    let hw: i64 = (sw as u64 / (SCALE as u64)) as i64;
    let hh: i64 = (sh as u64 / (SCALE as u64)) as i64;
    proof {
        vstd::arithmetic::div_mod::lemma_div_is_ordered(
            sw as int, (0x400_0000 * 0x10000 * 2) as int, SCALE as int);
        vstd::arithmetic::div_mod::lemma_div_is_ordered(
            sh as int, (0x400_0000 * 0x10000 * 2) as int, SCALE as int);
        vstd::arithmetic::div_mod::lemma_div_pos_is_pos(sw as int, SCALE as int);
        vstd::arithmetic::div_mod::lemma_div_pos_is_pos(sh as int, SCALE as int);
        assert(((0x400_0000 * 0x10000 * 2) as int) / (SCALE as int) == 2 * MAX_COORD);
    }
    (hw, hh)
}

/// Squares of values within the coordinate-trigonometry product range
/// stay within the unsigned wide range.
proof fn lemma_sq_bound(a: int)
    requires
        0 <= a <= 0x400_0000 * 0x10000,
    ensures
        0 <= a * a <= 0x400_0000 * 0x10000 * (0x400_0000 * 0x10000),
{
    vstd::arithmetic::mul::lemma_mul_nonnegative(a, a);
    vstd::arithmetic::mul::lemma_mul_upper_bound(
        a, (0x400_0000 * 0x10000) as int, a, (0x400_0000 * 0x10000) as int);
}

/// The square root of a sum of two bounded squares is bounded by the sum
/// of the roots' bounds.
proof fn lemma_isqrt_of_sum_bounded(a: int, b: int, s: int)
    requires
        0 <= a <= 0x400_0000 * 0x10000,
        0 <= b <= 0x400_0000 * 0x10000,
        s == sqrt_floor(a * a + b * b),
    ensures
        0 <= s <= 0x400_0000 * 0x10000 * 2,
{
    lemma_sq_bound(a);
    lemma_sq_bound(b);
    lemma_sqrt_floor_is_isqrt(a * a + b * b);
    let m = 0x400_0000 * 0x10000 * 2;
    if s > m {
        assert((m + 1) * (m + 1) <= s * s) by (nonlinear_arith)
            requires 0 <= m && m + 1 <= s;
        assert(a * a + b * b < (m + 1) * (m + 1)) by (nonlinear_arith)
            requires 0 <= a <= 0x400_0000 * 0x10000 && 0 <= b <= 0x400_0000 * 0x10000
                && m == 0x400_0000 * 0x10000 * 2;
    }
}

impl ShapeType {
    /// The size of the axis-aligned bounding box of the shape under its own
    /// rotation: an ellipse by the rotated-ellipse formula, a rectangle by
    /// projecting its half extents.
    pub fn size(&self) -> (r: (i64, i64))
        requires
            self.well_formed(),
        ensures
            (r.0 as int, r.1 as int) == spec_bounding_size(*self),
    {
        let angle = self.angle();
        let sin: i64 = abs_i64(sin_fp(angle));
        let cos: i64 = abs_i64(cos_fp(angle));
        let (w, h) = self.wh_pair();
        match *self {
            ShapeType::Ellipse(_, _, _) => {
                let (hw, hh) = ellipse_half_extents(w / 2, h / 2, sin, cos);
                (2 * hw, 2 * hh)
            },
            _ => {
                proof {
                    lemma_coord_trig_product((w / 2) as int, cos as int);
                    lemma_coord_trig_product((w / 2) as int, sin as int);
                    lemma_coord_trig_product((h / 2) as int, cos as int);
                    lemma_coord_trig_product((h / 2) as int, sin as int);
                    vstd::arithmetic::div_mod::lemma_div_pos_is_pos(
                        ((w / 2) * cos + (h / 2) * sin) as int, SCALE as int);
                    vstd::arithmetic::div_mod::lemma_div_pos_is_pos(
                        ((w / 2) * sin + (h / 2) * cos) as int, SCALE as int);
                    vstd::arithmetic::div_mod::lemma_div_is_ordered(
                        ((w / 2) * cos + (h / 2) * sin) as int,
                        (0x400_0000 * 0x10000 * 2) as int, SCALE as int);
                    vstd::arithmetic::div_mod::lemma_div_is_ordered(
                        ((w / 2) * sin + (h / 2) * cos) as int,
                        (0x400_0000 * 0x10000 * 2) as int, SCALE as int);
                }
                let hw: i64 = ((w / 2) * cos + (h / 2) * sin) / SCALE;
                let hh: i64 = ((w / 2) * sin + (h / 2) * cos) / SCALE;
                (2 * hw, 2 * hh)
            },
        }
    }
}

/// Executable absolute value.
fn abs_i64(a: i64) -> (r: i64)
    requires
        a > i64::MIN,
    ensures
        r == spec_abs(a as int),
{
    if a >= 0 { a } else { -a }
}

/// A point rotated around a center by a fixed-point sine and cosine.
pub open spec fn spec_rotate(cx: int, cy: int, sin: int, cos: int, px: int, py: int)
    -> (int, int) {
    let dx = px - cx;
    let dy = py - cy;
    (cx + sdiv(dx * cos - dy * sin, SCALE as int), cy + sdiv(dx * sin + dy * cos, SCALE as int))
}

/// The four corners of an unrotated box at `(ox, oy)` of size `(w, h)`,
/// in the order top-left, top-right, bottom-left, bottom-right.
pub open spec fn spec_corners(ox: int, oy: int, w: int, h: int) -> Seq<(int, int)> {
    seq![(ox, oy), (ox + w, oy), (ox, oy + h), (ox + w, oy + h)]
}

/// The smaller of two integers.
pub open spec fn spec_min(a: int, b: int) -> int {
    if a <= b { a } else { b }
}

/// The smallest first coordinate among four points.
pub open spec fn spec_min_x(ps: Seq<(int, int)>) -> int {
    spec_min(spec_min(ps[0].0, ps[1].0), spec_min(ps[2].0, ps[3].0))
}

/// The smallest second coordinate among four points.
pub open spec fn spec_min_y(ps: Seq<(int, int)>) -> int {
    spec_min(spec_min(ps[0].1, ps[1].1), spec_min(ps[2].1, ps[3].1))
}

/// The shift that re-anchors the rotated shape: the translation taking the
/// top-left of its rotated bounding box back to the placement offset.
pub open spec fn spec_anchor_shift(shape: ShapeType, ox: int, oy: int, rot: Seq<(int, int)>)
    -> (int, int) {
    let (w, h) = shape.spec_wh();
    let cx = ox + w / 2;
    let cy = oy + h / 2;
    match shape {
        ShapeType::Ellipse(_, _, _) => {
            let sin = spec_abs(sin_mdeg(shape.spec_angle()));
            let cos = spec_abs(cos_mdeg(shape.spec_angle()));
            let (hw, hh) = spec_ellipse_half_extents(w / 2, h / 2, sin, cos);
            (ox - (cx - hw), oy - (cy - hh))
        },
        _ => (ox - spec_min_x(rot), oy - spec_min_y(rot)),
    }
}

/// The corner positions of the rotated shape, re-anchored at the offset.
pub open spec fn spec_positions(shape: ShapeType, ox: int, oy: int) -> Seq<(int, int)> {
    let (w, h) = shape.spec_wh();
    let sin = sin_mdeg(shape.spec_angle());
    let cos = cos_mdeg(shape.spec_angle());
    let cx = ox + w / 2;
    let cy = oy + h / 2;
    let rot = spec_corners(ox, oy, w, h).map_values(
        |p: (int, int)| spec_rotate(cx, cy, sin, cos, p.0, p.1));
    let shift = spec_anchor_shift(shape, ox, oy, rot);
    rot.map_values(|p: (int, int)| (p.0 + shift.0, p.1 + shift.1))
}

/// A signed product of a bounded coordinate difference and a trigonometric
/// coefficient stays well inside the machine range.
proof fn lemma_diff_trig_product(a: int, t: int)
    requires
        -4 * MAX_COORD <= a <= 4 * MAX_COORD,
        -SCALE <= t <= SCALE,
    ensures
        -(0x1000_0000 * 0x10000) <= a * t <= 0x1000_0000 * 0x10000,
{
    assert(-(0x1000_0000 * 0x10000) <= a * t <= 0x1000_0000 * 0x10000) by (nonlinear_arith)
        requires -0x1000_0000 <= a <= 0x1000_0000 && -0x10000 <= t <= 0x10000;
}

/// Executable rotation of one point around a center.
fn rotate_point(cx: i64, cy: i64, sin: i64, cos: i64, px: i64, py: i64) -> (r: (i64, i64))
    requires
        -2 * MAX_COORD <= cx <= 2 * MAX_COORD,
        -2 * MAX_COORD <= cy <= 2 * MAX_COORD,
        -2 * MAX_COORD <= px <= 2 * MAX_COORD,
        -2 * MAX_COORD <= py <= 2 * MAX_COORD,
        -SCALE <= sin <= SCALE,
        -SCALE <= cos <= SCALE,
    ensures
        (r.0 as int, r.1 as int) == spec_rotate(
            cx as int, cy as int, sin as int, cos as int, px as int, py as int),
        -10 * MAX_COORD <= r.0 <= 10 * MAX_COORD,
        -10 * MAX_COORD <= r.1 <= 10 * MAX_COORD,
{
    let dx: i64 = px - cx;
    let dy: i64 = py - cy;
    proof {
        lemma_diff_trig_product(dx as int, cos as int);
        lemma_diff_trig_product(dx as int, sin as int);
        lemma_diff_trig_product(dy as int, cos as int);
        lemma_diff_trig_product(dy as int, sin as int);
    }
    let tx: i64 = dx * cos - dy * sin;
    let ty: i64 = dx * sin + dy * cos;
    proof {
        lemma_scale_div_bound(tx as int);
        lemma_scale_div_bound(ty as int);
    }
    let rx: i64 = cx + div_trunc(tx, SCALE);
    let ry: i64 = cy + div_trunc(ty, SCALE);
    (rx, ry)
}

/// Dividing a bounded product back by the fixed-point scale bounds the
/// result by the coordinate range again.
proof fn lemma_scale_div_bound(t: int)
    requires
        -2 * (0x1000_0000 * 0x10000) <= t <= 2 * (0x1000_0000 * 0x10000),
    ensures
        -8 * MAX_COORD <= sdiv(t, SCALE as int) <= 8 * MAX_COORD,
{
    if t >= 0 {
        vstd::arithmetic::div_mod::lemma_div_is_ordered(
            t, (2 * (0x1000_0000 * 0x10000)) as int, SCALE as int);
        vstd::arithmetic::div_mod::lemma_div_pos_is_pos(t, SCALE as int);
        assert((2 * (0x1000_0000 * 0x10000)) as int / (SCALE as int) == 8 * MAX_COORD);
    } else {
        vstd::arithmetic::div_mod::lemma_div_is_ordered(
            -t, (2 * (0x1000_0000 * 0x10000)) as int, SCALE as int);
        vstd::arithmetic::div_mod::lemma_div_pos_is_pos(-t, SCALE as int);
        assert((2 * (0x1000_0000 * 0x10000)) as int / (SCALE as int) == 8 * MAX_COORD);
    }
}

/// The smaller of two machine integers.
fn min_i64(a: i64, b: i64) -> (r: i64)
    ensures
        r == spec_min(a as int, b as int),
{
    if a <= b { a } else { b }
}

impl ShapeType {
    /// The four corner positions of the shape rotated around its own center
    /// and shifted so the top-left of its rotated bounding box stays at the
    /// placement offset: rotation never moves the anchor.
    #[verifier::rlimit(60)]
    pub fn positions(&self, offset: (i64, i64)) -> (r: [[i64; 2]; 4])
        requires
            self.well_formed(),
            -MAX_COORD <= offset.0 <= MAX_COORD,
            -MAX_COORD <= offset.1 <= MAX_COORD,
        ensures
            forall|i: int| 0 <= i < 4 ==> (#[trigger] r@[i]@[0] as int, r@[i]@[1] as int)
                == spec_positions(*self, offset.0 as int, offset.1 as int)[i],
    {
        let (ox, oy) = offset;
        let (w, h) = self.wh_pair();
        let angle = self.angle();
        let sin = sin_fp(angle);
        let cos = cos_fp(angle);
        let cx: i64 = ox + w / 2;
        let cy: i64 = oy + h / 2;
        let p0 = rotate_point(cx, cy, sin, cos, ox, oy);
        let p1 = rotate_point(cx, cy, sin, cos, ox + w, oy);
        let p2 = rotate_point(cx, cy, sin, cos, ox, oy + h);
        let p3 = rotate_point(cx, cy, sin, cos, ox + w, oy + h);
        let ghost rot = spec_corners(ox as int, oy as int, w as int, h as int).map_values(
            |p: (int, int)| spec_rotate(cx as int, cy as int, sin as int, cos as int, p.0, p.1));
        proof {
            assert(rot[0] == (p0.0 as int, p0.1 as int));
            assert(rot[1] == (p1.0 as int, p1.1 as int));
            assert(rot[2] == (p2.0 as int, p2.1 as int));
            assert(rot[3] == (p3.0 as int, p3.1 as int));
        }
        let (sx, sy) = match *self {
            ShapeType::Ellipse(_, _, _) => {
                let (hw, hh) = ellipse_half_extents(w / 2, h / 2, abs_i64(sin), abs_i64(cos));
                (ox - (cx - hw), oy - (cy - hh))
            },
            _ => {
                let mnx = min_i64(min_i64(p0.0, p1.0), min_i64(p2.0, p3.0));
                let mny = min_i64(min_i64(p0.1, p1.1), min_i64(p2.1, p3.1));
                (ox - mnx, oy - mny)
            },
        };
        proof {
            assert((sx as int, sy as int) == spec_anchor_shift(
                *self, ox as int, oy as int, rot));
        }
        let out = [
            [p0.0 + sx, p0.1 + sy],
            [p1.0 + sx, p1.1 + sy],
            [p2.0 + sx, p2.1 + sy],
            [p3.0 + sx, p3.1 + sy],
        ];
        proof {
            let ps = spec_positions(*self, ox as int, oy as int);
            assert(ps == rot.map_values(|p: (int, int)| (p.0 + sx as int, p.1 + sy as int)));
            assert(ps[0] == (out[0][0] as int, out[0][1] as int));
            assert(ps[1] == (out[1][0] as int, out[1][1] as int));
            assert(ps[2] == (out[2][0] as int, out[2][1] as int));
            assert(ps[3] == (out[3][0] as int, out[3][1] as int));
        }
        out
    }
}

/// The square root of a perfect square is its root.
proof fn lemma_sqrt_of_square(a: int)
    requires
        a >= 0,
    ensures
        sqrt_floor(a * a) == a,
{
    assert(a * a >= 0) by (nonlinear_arith)
        requires a >= 0;
    assert((a + 1) * (a + 1) > a * a) by (nonlinear_arith)
        requires a >= 0;
    lemma_sqrt_floor_is_isqrt(a * a);
    lemma_isqrt_unique(a * a, a, sqrt_floor(a * a));
}

/// A zero rotation reproduces the unrotated box: the corner positions are
/// exactly the corners of the axis-aligned box at the offset, and the
/// bounding size is the box's own (even) size.
pub proof fn lemma_positions_zero_rotation(shape: ShapeType, ox: int, oy: int)
    requires
        shape.well_formed(),
        shape.spec_angle() == 0,
    ensures
        spec_positions(shape, ox, oy) =~= spec_corners(
            ox, oy, shape.spec_wh().0, shape.spec_wh().1),
        spec_bounding_size(shape) == (
            2 * (shape.spec_wh().0 / 2), 2 * (shape.spec_wh().1 / 2)),
{
    crate::num::lemma_trig_zero();
    let (w, h) = shape.spec_wh();
    let cx = ox + w / 2;
    let cy = oy + h / 2;
    let sin = sin_mdeg(0);
    let cos = cos_mdeg(0);
    assert(sin == 0 && cos == SCALE);
    assert forall|px: int, py: int| spec_rotate(cx, cy, 0, SCALE as int, px, py) == (px, py) by {
        let dx = px - cx;
        let dy = py - cy;
        assert(dx * (SCALE as int) - dy * 0 == dx * (SCALE as int)) by (nonlinear_arith);
        assert(dx * 0 + dy * (SCALE as int) == dy * (SCALE as int)) by (nonlinear_arith);
        crate::num::lemma_sdiv_mul_exact(dx, SCALE as int);
        crate::num::lemma_sdiv_mul_exact(dy, SCALE as int);
    }
    let rot = spec_corners(ox, oy, w, h).map_values(
        |p: (int, int)| spec_rotate(cx, cy, sin, cos, p.0, p.1));
    assert(rot =~= spec_corners(ox, oy, w, h));
    lemma_ellipse_half_extents_zero(w / 2, h / 2);
    let shift = spec_anchor_shift(shape, ox, oy, rot);
    assert(shift == (0int, 0int));
    assert(spec_positions(shape, ox, oy) =~= spec_corners(ox, oy, w, h));
}

/// With a zero angle the rotated-ellipse half extents are the half axes.
proof fn lemma_ellipse_half_extents_zero(rx: int, ry: int)
    requires
        0 <= rx,
        0 <= ry,
    ensures
        spec_ellipse_half_extents(rx, ry, 0, SCALE as int) == (rx, ry),
{
    assert(rx * 0 * (rx * 0) == 0) by (nonlinear_arith);
    assert(ry * 0 * (ry * 0) == 0) by (nonlinear_arith);
    assert(rx * (SCALE as int) * (rx * (SCALE as int)) + 0 == (rx * (SCALE as int)) * (rx * (
    SCALE as int))) by (nonlinear_arith);
    assert(0 + ry * (SCALE as int) * (ry * (SCALE as int)) == (ry * (SCALE as int)) * (ry * (
    SCALE as int))) by (nonlinear_arith);
    assert(rx * (SCALE as int) >= 0) by (nonlinear_arith)
        requires rx >= 0;
    assert(ry * (SCALE as int) >= 0) by (nonlinear_arith)
        requires ry >= 0;
    lemma_sqrt_of_square(rx * (SCALE as int));
    lemma_sqrt_of_square(ry * (SCALE as int));
    vstd::arithmetic::div_mod::lemma_div_by_multiple(rx, SCALE as int);
    vstd::arithmetic::div_mod::lemma_div_by_multiple(ry, SCALE as int);
}

/// For a rectangle or rounded rectangle under any rotation, the shift
/// correction keeps the anchor fixed: the top-left of the axis-aligned box
/// around the produced corners is exactly the placement offset.
pub proof fn lemma_anchor_fixed(shape: ShapeType, ox: int, oy: int)
    requires
        shape.well_formed(),
        !(shape is Ellipse),
    ensures
        spec_min_x(spec_positions(shape, ox, oy)) == ox,
        spec_min_y(spec_positions(shape, ox, oy)) == oy,
{
    let (w, h) = shape.spec_wh();
    let sin = sin_mdeg(shape.spec_angle());
    let cos = cos_mdeg(shape.spec_angle());
    let cx = ox + w / 2;
    let cy = oy + h / 2;
    let rot = spec_corners(ox, oy, w, h).map_values(
        |p: (int, int)| spec_rotate(cx, cy, sin, cos, p.0, p.1));
    let shift = spec_anchor_shift(shape, ox, oy, rot);
    let out = spec_positions(shape, ox, oy);
    assert(out[0] == (rot[0].0 + shift.0, rot[0].1 + shift.1));
    assert(out[1] == (rot[1].0 + shift.0, rot[1].1 + shift.1));
    assert(out[2] == (rot[2].0 + shift.0, rot[2].1 + shift.1));
    assert(out[3] == (rot[3].0 + shift.0, rot[3].1 + shift.1));
}

} // verus!
