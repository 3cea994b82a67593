//! Vertex assembly: unit-space quads for shapes and images, fixed-point
//! normalized device coordinates, quad index batches, and letterboxed
//! texture coordinates.
use vstd::prelude::*;
use crate::color::Color;
use crate::num::{SCALE, sdiv, div_trunc, lemma_sdiv_bound};
use crate::shape::{ShapeType, MAX_COORD, spec_positions};
use crate::scene::Area;

verus! {

/// One corner of a shape quad, in unit space: the caller converts unit
/// positions and bounds to device coordinates for its backend.
#[derive(Debug, Clone, Copy, PartialEq)]
pub struct ShapeVertex {
    /// The texture-space corner of the quad.
    pub uv: [i64; 2],
    /// The unit-space position of the corner.
    pub position: [i64; 2],
    /// The unrotated size of the shape.
    pub size: [i64; 2],
    /// The clip bounds, relative to the shape's offset.
    pub bounds: [i64; 4],
    /// The depth slot of the item.
    pub z_index: u16,
    /// The clamped stroke width.
    pub stroke: i64,
}

/// A fixed-point normalized device coordinate: `(x / width) * 2 - 1`, at
/// the trigonometric scale.
pub open spec fn spec_ndc_x(width: int, x: int) -> int {
    sdiv(x * 2 * (SCALE as int), width) - SCALE
}

/// A fixed-point normalized device coordinate, flipped: `1 - (y / height) * 2`.
pub open spec fn spec_ndc_y(height: int, y: int) -> int {
    (SCALE as int) - sdiv(y * 2 * (SCALE as int), height)
}

/// One point carried from unit space to fixed-point normalized device
/// coordinates.
pub fn transform_point(width: i64, height: i64, p: [i64; 2]) -> (r: [i64; 2])
    requires
        0 < width <= MAX_COORD,
        0 < height <= MAX_COORD,
        -16 * MAX_COORD <= p[0] <= 16 * MAX_COORD,
        -16 * MAX_COORD <= p[1] <= 16 * MAX_COORD,
    ensures
        r@ == seq![
            (spec_ndc_x(width as int, p[0] as int)) as i64,
            (spec_ndc_y(height as int, p[1] as int)) as i64,
        ],
{
    proof {
        assert(-(0x4000_0000_0000_0000 as int) <= p[0] as int * 2 * (SCALE as int)
            <= 0x4000_0000_0000_0000) by (nonlinear_arith)
            requires -16 * 0x400_0000 <= p[0] as int <= 16 * 0x400_0000;
        assert(-(0x4000_0000_0000_0000 as int) <= p[1] as int * 2 * (SCALE as int)
            <= 0x4000_0000_0000_0000) by (nonlinear_arith)
            requires -16 * 0x400_0000 <= p[1] as int <= 16 * 0x400_0000;
        lemma_sdiv_bound(p[0] as int * 2 * (SCALE as int), width as int);
        lemma_sdiv_bound(p[1] as int * 2 * (SCALE as int), height as int);
    }
    let x = div_trunc(p[0] * 2 * SCALE, width) - SCALE;
    let y = SCALE - div_trunc(p[1] * 2 * SCALE, height);
    [x, y]
}

/// Four points carried to fixed-point normalized device coordinates.
pub fn transform(width: i64, height: i64, p: [[i64; 2]; 4]) -> (r: [[i64; 2]; 4])
    requires
        0 < width <= MAX_COORD,
        0 < height <= MAX_COORD,
        forall|i: int| 0 <= i < 4 ==> -16 * MAX_COORD <= (#[trigger] p@[i])@[0]
            <= 16 * MAX_COORD && -16 * MAX_COORD <= p@[i]@[1] <= 16 * MAX_COORD,
    ensures
        forall|i: int| 0 <= i < 4 ==> (#[trigger] r@[i])@ == seq![
            (spec_ndc_x(width as int, p@[i]@[0] as int)) as i64,
            (spec_ndc_y(height as int, p@[i]@[1] as int)) as i64,
        ],
{
    let r = [
        transform_point(width, height, p[0]),
        transform_point(width, height, p[1]),
        transform_point(width, height, p[2]),
        transform_point(width, height, p[3]),
    ];
    proof {
        assert(p@[0] == p[0] && p@[1] == p[1] && p@[2] == p[2] && p@[3] == p[3]);
    }
    r
}

/// The index pattern of `count` quads: each quad `q` contributes the two
/// triangles `4q, 4q+1, 4q+2` and `4q+1, 4q+2, 4q+3`.
pub fn quad_indices(count: usize) -> (r: Vec<u16>)
    requires
        count <= 16384,
    ensures
        r@.len() == 6 * count,
        forall|q: int| 0 <= q < count ==> {
            &&& #[trigger] r@[6 * q] == 4 * q
            &&& r@[6 * q + 1] == 4 * q + 1
            &&& r@[6 * q + 2] == 4 * q + 2
            &&& r@[6 * q + 3] == 4 * q + 1
            &&& r@[6 * q + 4] == 4 * q + 2
            &&& r@[6 * q + 5] == 4 * q + 3
        },
{
    let mut r: Vec<u16> = Vec::new();
    let mut q: usize = 0;
    while q < count
        invariant
            q <= count <= 16384,
            r@.len() == 6 * q,
            forall|t: int| 0 <= t < q ==> {
                &&& #[trigger] r@[6 * t] == 4 * t
                &&& r@[6 * t + 1] == 4 * t + 1
                &&& r@[6 * t + 2] == 4 * t + 2
                &&& r@[6 * t + 3] == 4 * t + 1
                &&& r@[6 * t + 4] == 4 * t + 2
                &&& r@[6 * t + 5] == 4 * t + 3
            },
        decreases count - q,
    {
        let l: u16 = (4 * q) as u16;
        r.push(l);
        r.push(l + 1);
        r.push(l + 2);
        r.push(l + 1);
        r.push(l + 2);
        r.push(l + 3);
        proof {
            assert(r@[6 * q as int] == 4 * q);
            assert(r@[6 * q as int + 1] == 4 * q + 1);
            assert(r@[6 * q as int + 2] == 4 * q + 2);
            assert(r@[6 * q as int + 3] == 4 * q + 1);
            assert(r@[6 * q as int + 4] == 4 * q + 2);
            assert(r@[6 * q as int + 5] == 4 * q + 3);
        }
        q += 1;
    }
    r
}

/// The clip bounds of an item relative to its offset: its own bounds when
/// it has them, the whole frame otherwise.
pub open spec fn spec_rel_bounds(area: Area, width: int, height: int) -> (int, int, int, int) {
    match area.bounds {
        Some((bx, by, bw, bh)) => (
            bx - area.offset.0, by - area.offset.1,
            bx - area.offset.0 + bw, by - area.offset.1 + bh,
        ),
        None => (
            0 - area.offset.0, 0 - area.offset.1,
            width - area.offset.0, height - area.offset.1,
        ),
    }
}

impl ShapeVertex {
    /// The four corners of one shape item: rotated, anchor-aligned
    /// positions, texture corners spanning the shape's size, clip bounds
    /// relative to the offset, the item's depth slot, and the clamped
    /// stroke.
    #[verifier::spinoff_prover]
    #[verifier::rlimit(100)]
    pub fn new(width: i64, height: i64, z: u16, area: Area, shape: ShapeType)
        -> (r: [ShapeVertex; 4])
        requires
            shape.well_formed(),
            area.wf(),
            0 < width <= MAX_COORD,
            0 < height <= MAX_COORD,
        ensures
            forall|i: int| 0 <= i < 4 ==> {
                let ps = spec_positions(shape, area.offset.0 as int, area.offset.1 as int);
                let (w, h) = shape.spec_wh();
                let b = spec_rel_bounds(area, width as int, height as int);
                &&& (#[trigger] r@[i]).position@ == seq![ps[i].0 as i64, ps[i].1 as i64]
                &&& r@[i].size@ == seq![w as i64, h as i64]
                &&& r@[i].uv@ == seq![
                    (if i == 1 || i == 3 { w } else { 0 }) as i64,
                    (if i == 2 || i == 3 { h } else { 0 }) as i64,
                ]
                &&& r@[i].bounds@ == seq![b.0 as i64, b.1 as i64, b.2 as i64, b.3 as i64]
                &&& r@[i].z_index == z
                &&& r@[i].stroke == shape.spec_stroke()
            },
    {
        let op = shape.positions(area.offset);
        let wh = shape.wh();
        let stroke = shape.stroke();
        let (bx, by, bx2, by2) = match area.bounds {
            Some((bx, by, bw, bh)) => (
                bx - area.offset.0, by - area.offset.1,
                bx - area.offset.0 + bw, by - area.offset.1 + bh,
            ),
            None => (
                0 - area.offset.0, 0 - area.offset.1,
                width - area.offset.0, height - area.offset.1,
            ),
        };
        let bounds = [bx, by, bx2, by2];
        let size = [wh[0], wh[1]];
        let out = [
            ShapeVertex { uv: [0, 0], position: op[0], size, bounds, z_index: z, stroke },
            ShapeVertex { uv: [wh[0], 0], position: op[1], size, bounds, z_index: z, stroke },
            ShapeVertex { uv: [0, wh[1]], position: op[2], size, bounds, z_index: z, stroke },
            ShapeVertex { uv: [wh[0], wh[1]], position: op[3], size, bounds, z_index: z,
                stroke },
        ];
        proof {
            let ps = spec_positions(shape, area.offset.0 as int, area.offset.1 as int);
            let (w, h) = shape.spec_wh();
            let b = spec_rel_bounds(area, width as int, height as int);
            assert forall|i: int| 0 <= i < 4 implies (#[trigger] out@[i]).position@
                == seq![ps[i].0 as i64, ps[i].1 as i64] by {
                assert(out@[i].position == op@[i]);
                assert(op@[i]@[0] as int == ps[i].0);
                assert(op@[i]@[1] as int == ps[i].1);
                assert(op@[i]@.len() == 2);
                assert(op@[i]@ =~= seq![ps[i].0 as i64, ps[i].1 as i64]);
            }
            assert(out@[0].uv@ =~= seq![0i64, 0i64]);
            assert(out@[1].uv@ =~= seq![(w as i64), 0i64]);
            assert(out@[2].uv@ =~= seq![0i64, (h as i64)]);
            assert(out@[3].uv@ =~= seq![(w as i64), (h as i64)]);
            assert forall|i: int| 0 <= i < 4 implies (#[trigger] out@[i]).size@
                == seq![w as i64, h as i64] by {
                assert(out@[i].size@ =~= seq![w as i64, h as i64]);
            }
            assert forall|i: int| 0 <= i < 4 implies (#[trigger] out@[i]).bounds@
                == seq![b.0 as i64, b.1 as i64, b.2 as i64, b.3 as i64] by {
                assert(out@[i].bounds@ =~= seq![b.0 as i64, b.1 as i64, b.2 as i64,
                    b.3 as i64]);
            }
        }
        out
    }
}

/// One corner of a rounded-rectangle quad: a shape corner and the corner
/// radius.
#[derive(Debug, Clone, Copy, PartialEq)]
pub struct RoundedRectangleVertex {
    /// The underlying shape corner.
    pub shape: ShapeVertex,
    /// The corner radius of the rounded rectangle.
    pub corner_radius: i64,
}

impl RoundedRectangleVertex {
    /// The four corners of one rounded rectangle item.
    pub fn new(width: i64, height: i64, z: u16, area: Area, shape: ShapeType,
        corner_radius: i64) -> (r: [RoundedRectangleVertex; 4])
        requires
            shape.well_formed(),
            area.wf(),
            0 < width <= MAX_COORD,
            0 < height <= MAX_COORD,
        ensures
            forall|i: int| 0 <= i < 4 ==> {
                &&& (#[trigger] r@[i]).corner_radius == corner_radius
                &&& r@[i].shape.position@ == seq![
                    spec_positions(shape, area.offset.0 as int,
                        area.offset.1 as int)[i].0 as i64,
                    spec_positions(shape, area.offset.0 as int,
                        area.offset.1 as int)[i].1 as i64,
                ]
                &&& r@[i].shape.z_index == z
                &&& r@[i].shape.stroke == shape.spec_stroke()
            },
    {
        let sv = ShapeVertex::new(width, height, z, area, shape);
        [
            RoundedRectangleVertex { shape: sv[0], corner_radius },
            RoundedRectangleVertex { shape: sv[1], corner_radius },
            RoundedRectangleVertex { shape: sv[2], corner_radius },
            RoundedRectangleVertex { shape: sv[3], corner_radius },
        ]
    }
}

/// One corner of a colored quad: a shape corner and the item's color,
/// carried as channel bytes for the caller's color-space conversion.
#[derive(Debug, Clone, Copy, PartialEq)]
pub struct ColorVertex {
    /// The underlying shape corner.
    pub shape: ShapeVertex,
    /// The color of the item.
    pub color: Color,
}

impl ColorVertex {
    /// The four corners of a colored quad.
    pub fn new(shape: [ShapeVertex; 4], color: Color) -> (r: [ColorVertex; 4])
        ensures
            forall|i: int| 0 <= i < 4 ==> (#[trigger] r@[i]) == (ColorVertex {
                shape: shape@[i], color }),
    {
        [
            ColorVertex { shape: shape[0], color },
            ColorVertex { shape: shape[1], color },
            ColorVertex { shape: shape[2], color },
            ColorVertex { shape: shape[3], color },
        ]
    }
}

/// The letterboxed texture window of an image drawn into a box: the side
/// whose scale is tighter is centered, at fixed-point scale.
pub open spec fn spec_tex_window(iw: int, ih: int, bw: int, bh: int) -> (int, int, int, int) {
    if bh * iw > bw * ih {
        let d = sdiv(((SCALE as int) - sdiv(bw * ih * (SCALE as int), bh * iw)), 2);
        (d, 0, (SCALE as int) - d, SCALE as int)
    } else {
        let d = sdiv(((SCALE as int) - sdiv(bh * iw * (SCALE as int), bw * ih)), 2);
        (0, d, SCALE as int, (SCALE as int) - d)
    }
}

/// One corner of an image quad: a colored shape corner and a fixed-point
/// texture coordinate.
#[derive(Debug, Clone, Copy, PartialEq)]
pub struct ImageVertex {
    /// The underlying colored corner.
    pub color: ColorVertex,
    /// The fixed-point texture coordinate of the corner.
    pub texture: [i64; 2],
}

impl ImageVertex {
    /// The four corners of an image quad: the image is letterboxed into
    /// the box `size`, the tighter side centered.
    #[verifier::spinoff_prover]
    #[verifier::rlimit(100)]
    pub fn new(shape: [ShapeVertex; 4], iw: u32, ih: u32, size: (i64, i64),
        color: Option<Color>) -> (r: [ImageVertex; 4])
        requires
            iw > 0,
            ih > 0,
            0 < size.0 <= MAX_COORD,
            0 < size.1 <= MAX_COORD,
        ensures
            ({
                let (tx, ty, tx2, ty2) = spec_tex_window(iw as int, ih as int,
                    size.0 as int, size.1 as int);
                let c = match color {
                    Some(c) => c,
                    None => Color(255, 255, 255, 255),
                };
                &&& r@.len() == 4
                &&& forall|i: int| 0 <= i < 4
                    ==> (#[trigger] r@[i]).color == (ColorVertex { shape: shape@[i],
                        color: c })
                &&& r@[0].texture@ == seq![tx as i64, ty as i64]
                &&& r@[1].texture@ == seq![tx2 as i64, ty as i64]
                &&& r@[2].texture@ == seq![tx as i64, ty2 as i64]
                &&& r@[3].texture@ == seq![tx2 as i64, ty2 as i64]
            }),
    {
        let cross_a: i64 = cross_side(size.1, iw);
        let cross_b: i64 = cross_side(size.0, ih);
        let mut x: i64 = 0;
        let mut y: i64 = 0;
        let mut x2: i64 = SCALE;
        let mut y2: i64 = SCALE;
        if cross_a > cross_b {
            let d = letterbox_d(cross_b, cross_a);
            x = d;
            x2 = SCALE - d;
        } else {
            let d = letterbox_d(cross_a, cross_b);
            y = d;
            y2 = SCALE - d;
        }
        let c = match color {
            Some(c) => c,
            None => Color(255, 255, 255, 255),
        };
        let cv = ColorVertex::new(shape, c);
        let out = [
            ImageVertex { color: cv[0], texture: [x, y] },
            ImageVertex { color: cv[1], texture: [x2, y] },
            ImageVertex { color: cv[2], texture: [x, y2] },
            ImageVertex { color: cv[3], texture: [x2, y2] },
        ];
        proof {
            let (tx, ty, tx2, ty2) = spec_tex_window(iw as int, ih as int,
                size.0 as int, size.1 as int);
            assert(out@[0].texture@ =~= seq![tx as i64, ty as i64]);
            assert(out@[1].texture@ =~= seq![tx2 as i64, ty as i64]);
            assert(out@[2].texture@ =~= seq![tx as i64, ty2 as i64]);
            assert(out@[3].texture@ =~= seq![tx2 as i64, ty2 as i64]);
        }
        out
    }
}

/// The cross product of a box side and an image side.
fn cross_side(a: i64, b: u32) -> (r: i64)
    requires
        0 < a <= MAX_COORD,
        b > 0,
    ensures
        r == a * b,
        0 < r <= 0x400_0000_0000_0000_0000,
{
    proof {
        vstd::arithmetic::mul::lemma_mul_strictly_positive(a as int, b as int);
        vstd::arithmetic::mul::lemma_mul_upper_bound(a as int, 0x400_0000, b as int,
            0x1_0000_0000);
    }
    a * (b as i64)
}

/// The centering inset of the tighter letterboxed side, at fixed point.
fn letterbox_d(small: i64, large: i64) -> (r: i64)
    requires
        0 < large <= 0x400_0000_0000_0000_0000,
        0 <= small <= large,
    ensures
        r == sdiv((SCALE as int) - sdiv(small as int * (SCALE as int), large as int), 2),
        0 <= r <= SCALE,
{
    proof {
        lemma_tex_ratio(small as int, large as int);
    }
    let num: i128 = (small as i128) * (SCALE as i128);
    let ratio: i128 = num / (large as i128);
    let d128: i128 = ((SCALE as i128) - ratio) / 2;
    proof {
        assert(ratio == sdiv(small as int * (SCALE as int), large as int));
        assert(d128 == sdiv((SCALE as int) - ratio as int, 2));
    }
    d128 as i64
}

/// Cross products of image and box sides stay within the machine range.
proof fn lemma_tex_products(iw: int, ih: int, bw: int, bh: int)
    requires
        0 < iw < 0x1_0000_0000,
        0 < ih < 0x1_0000_0000,
        0 < bw <= MAX_COORD,
        0 < bh <= MAX_COORD,
    ensures
        0 < bh * iw <= 0x400_0000_0000_0000_0000,
        0 < bw * ih <= 0x400_0000_0000_0000_0000,
{
    vstd::arithmetic::mul::lemma_mul_strictly_positive(bh, iw);
    vstd::arithmetic::mul::lemma_mul_strictly_positive(bw, ih);
    vstd::arithmetic::mul::lemma_mul_upper_bound(bh, 0x400_0000, iw, 0x1_0000_0000);
    vstd::arithmetic::mul::lemma_mul_upper_bound(bw, 0x400_0000, ih, 0x1_0000_0000);
}

/// A ratio of a smaller to a larger positive cross product scales into
/// the fixed-point unit.
proof fn lemma_tex_ratio(small: int, large: int)
    requires
        0 < large <= 0x400_0000_0000_0000_0000,
        0 <= small <= large,
    ensures
        0 <= small * (SCALE as int) <= 0x4000_0000_0000_0000_0000_0000,
        0 <= sdiv(small * (SCALE as int), large) <= SCALE,
        0 <= (SCALE as int) - sdiv(small * (SCALE as int), large) <= SCALE,
        0 <= sdiv((SCALE as int) - sdiv(small * (SCALE as int), large), 2) <= SCALE,
{
    vstd::arithmetic::mul::lemma_mul_nonnegative(small, SCALE as int);
    vstd::arithmetic::mul::lemma_mul_upper_bound(small, 0x400_0000_0000_0000_0000,
        SCALE as int, SCALE as int);
    assert(small * (SCALE as int) <= large * (SCALE as int)) by {
        vstd::arithmetic::mul::lemma_mul_inequality(small, large, SCALE as int);
    }
    assert(sdiv(small * (SCALE as int), large) <= SCALE) by {
        vstd::arithmetic::div_mod::lemma_div_is_ordered(
            small * (SCALE as int), large * (SCALE as int), large);
        vstd::arithmetic::div_mod::lemma_div_by_multiple(SCALE as int, large);
        assert((SCALE as int) * large == large * (SCALE as int))
            by (nonlinear_arith);
    }
    vstd::arithmetic::div_mod::lemma_div_pos_is_pos(small * (SCALE as int), large);
    crate::num::lemma_sdiv_bound((SCALE as int) - sdiv(small * (SCALE as int), large), 2);
}

} // verus!
