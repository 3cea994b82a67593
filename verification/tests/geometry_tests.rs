use wgpu_canvas::atlas::{GlyphDraw, ImageAtlas, glyph_rgba};
use wgpu_canvas::buffer::{DynamicBuffer, WriteAction, next_copy_buffer_size, pad_contents,
    padded_len};
use wgpu_canvas::camera::Camera;
use wgpu_canvas::num::{cos_fp, div_trunc, isqrt, sin_fp};
use wgpu_canvas::scene::{Area, ColorDraw, ImageDraw, Item, Shape, batch_images, classify,
    text_draws};
use wgpu_canvas::shape::ShapeType;
use wgpu_canvas::color::Color;
use wgpu_canvas::vertex::{ImageVertex, RoundedRectangleVertex, ShapeVertex, quad_indices,
    transform, transform_point};

#[test]
fn division_truncates_toward_zero() {
    assert_eq!(div_trunc(-7, 2), -3);
    assert_eq!(div_trunc(7, 2), 3);
}

#[test]
fn integer_square_root_floors() {
    assert_eq!(isqrt(0), 0);
    assert_eq!(isqrt(10), 3);
    assert_eq!(isqrt(16), 4);
}

#[test]
fn trigonometry_hits_exact_quarter_points() {
    assert_eq!(sin_fp(0), 0);
    assert_eq!(cos_fp(0), 65536);
    assert_eq!(sin_fp(90_000), 65536);
    assert_eq!(sin_fp(180_000), 0);
    assert_eq!(sin_fp(270_000), -65536);
    assert_eq!(sin_fp(-90_000), -65536);
}

#[test]
fn zero_rotation_reproduces_the_unrotated_box() {
    let shape = ShapeType::Rectangle(0, (100, 50), 0);
    let ps = shape.positions((10, 20));
    assert_eq!(ps, [[10, 20], [110, 20], [10, 70], [110, 70]]);
    assert_eq!(shape.size(), (100, 50));
}

#[test]
fn zero_rotation_ellipse_box_matches() {
    let shape = ShapeType::Ellipse(0, (100, 50), 0);
    let ps = shape.positions((10, 20));
    assert_eq!(ps, [[10, 20], [110, 20], [10, 70], [110, 70]]);
    assert_eq!(shape.size(), (100, 50));
}

#[test]
fn quarter_turn_swaps_rectangle_extents() {
    let shape = ShapeType::Rectangle(0, (100, 50), 90_000);
    assert_eq!(shape.size(), (50, 100));
}

#[test]
fn rotation_keeps_the_anchor_corner() {
    let shape = ShapeType::Rectangle(0, (100, 50), 45_000);
    let ps = shape.positions((10, 20));
    let min_x = ps.iter().map(|p| p[0]).min().unwrap();
    let min_y = ps.iter().map(|p| p[1]).min().unwrap();
    assert_eq!((min_x, min_y), (10, 20));
}

#[test]
fn stroke_clamps_to_half_the_smaller_extent() {
    assert_eq!(ShapeType::Rectangle(20, (10, 30), 0).stroke(), 5);
    assert_eq!(ShapeType::Ellipse(2, (10, 30), 0).stroke(), 2);
}

#[test]
fn padding_rounds_up_to_the_copy_alignment() {
    assert_eq!(padded_len(0), 0);
    assert_eq!(padded_len(5), 8);
    assert_eq!(padded_len(8), 8);
    assert_eq!(pad_contents(&vec![1, 2, 3]), vec![1, 2, 3, 0]);
}

#[test]
fn capacity_grows_to_aligned_powers_of_two() {
    assert_eq!(next_copy_buffer_size(0), 4);
    assert_eq!(next_copy_buffer_size(5), 8);
    assert_eq!(next_copy_buffer_size(4096), 4096);
    assert_eq!(next_copy_buffer_size(4097), 8192);
}

#[test]
fn buffer_writes_in_place_until_capacity_is_exceeded() {
    let mut buf = DynamicBuffer::new();
    assert_eq!(buf.write_buffer(100), WriteAction::InPlace);
    assert_eq!(buf.write_buffer(5000), WriteAction::Reallocate(8192));
    assert_eq!(buf.size, 8192);
    assert_eq!(buf.write_buffer(5000), WriteAction::InPlace);
}

#[test]
fn quad_index_pattern() {
    assert_eq!(quad_indices(2), vec![0, 1, 2, 1, 2, 3, 4, 5, 6, 5, 6, 7]);
}

#[test]
fn unit_square_center_maps_to_origin() {
    assert_eq!(transform_point(100, 100, [50, 50]), [0, 0]);
    assert_eq!(transform_point(100, 100, [0, 0]), [-65536, 65536]);
    assert_eq!(transform_point(100, 100, [100, 100]), [65536, -65536]);
}

#[test]
fn shape_vertices_carry_depth_and_stroke() {
    let area = Area { offset: (10, 20), bounds: None };
    let shape = ShapeType::Rectangle(4, (100, 50), 0);
    let vs = ShapeVertex::new(800, 600, 7, area, shape);
    assert_eq!(vs[0].position, [10, 20]);
    assert_eq!(vs[3].position, [110, 70]);
    assert_eq!(vs[1].uv, [100, 0]);
    assert_eq!(vs[0].z_index, 7);
    assert_eq!(vs[0].stroke, 4);
    assert_eq!(vs[0].bounds, [-10, -20, 790, 580]);
}

#[test]
fn transform_carries_all_four_corners() {
    let ps = [[0, 0], [100, 0], [0, 100], [100, 100]];
    let ndc = transform(100, 100, ps);
    assert_eq!(ndc[0], [-65536, 65536]);
    assert_eq!(ndc[3], [65536, -65536]);
}

#[test]
fn rounded_rectangle_carries_its_radius() {
    let area = Area { offset: (0, 0), bounds: None };
    let shape = ShapeType::RoundedRectangle(0, (100, 50), 0, 12);
    let vs = RoundedRectangleVertex::new(800, 600, 3, area, shape, 12);
    assert_eq!(vs[0].corner_radius, 12);
    assert_eq!(vs[0].shape.z_index, 3);
    assert_eq!(vs[0].shape.position, [0, 0]);
}

#[test]
fn wide_box_letterboxes_vertically() {
    let area = Area { offset: (0, 0), bounds: None };
    let shape = ShapeType::Rectangle(0, (200, 100), 0);
    let vs = ShapeVertex::new(800, 600, 0, area, shape);
    let iv = ImageVertex::new(vs, 10, 10, (200, 100), None);
    // the square image is centered vertically: a quarter inset each side
    assert_eq!(iv[0].texture, [0, 16384]);
    assert_eq!(iv[3].texture, [65536, 49152]);
}

#[test]
fn text_expands_into_offset_stamped_draws() {
    let mut images = ImageAtlas::new();
    let img = images.add(vec![1, 2, 3, 4], 1, 1);
    let glyphs = vec![
        GlyphDraw { x: 5, y: 7, w: 8, h: 9, image: img, color: Color(1, 2, 3, 4) },
        GlyphDraw { x: 15, y: 7, w: 8, h: 9, image: img, color: Color(1, 2, 3, 4) },
    ];
    let area = Area { offset: (100, 200), bounds: Some((0, 0, 50, 50)) };
    let draws = text_draws(&glyphs, area, 9);
    assert_eq!(draws.len(), 2);
    assert_eq!(draws[0].z, 9);
    assert_eq!(draws[0].area.offset, (105, 207));
    assert_eq!(draws[1].area.offset, (115, 207));
    assert_eq!(draws[0].area.bounds, Some((0, 0, 50, 50)));
    assert_eq!(draws[0].shape, ShapeType::Rectangle(0, (8, 9), 0));
    assert_eq!(draws[0].color, Some(Color(1, 2, 3, 4)));
}

#[test]
fn batching_groups_quads_by_image() {
    let mut images = ImageAtlas::new();
    let a = images.add(vec![1, 1, 1, 1], 1, 1);
    let b = images.add(vec![2, 2, 2, 2], 1, 1);
    let area = Area { offset: (0, 0), bounds: None };
    let d = |img| ImageDraw {
        z: 0,
        area,
        shape: ShapeType::Rectangle(0, (1, 1), 0),
        image: img,
        color: None,
    };
    let draws = vec![d(a), d(b), d(a)];
    let batches = batch_images(&draws);
    assert_eq!(batches.len(), 2);
    assert_eq!(batches[0].key, a.key);
    assert_eq!(batches[0].ranges, vec![(0, 6), (12, 18)]);
    assert_eq!(batches[1].key, b.key);
    assert_eq!(batches[1].ranges, vec![(6, 12)]);
}

#[test]
fn camera_frame_swizzles_bgra_rows() {
    // two pixels per row, a stride of ten bytes, two rows
    let mut frame: Vec<u8> = Vec::new();
    frame.extend([1, 2, 3, 4, 5, 6, 7, 8, 0, 0]);
    frame.extend([9, 10, 11, 12, 13, 14, 15, 16, 0, 0]);
    let rgba = Camera::convert_frame(&frame, 10, 2, 2);
    assert_eq!(rgba, vec![3, 2, 1, 4, 7, 6, 5, 8, 11, 10, 9, 12, 15, 14, 13, 16]);
}

#[test]
fn camera_pixel_past_the_end_contributes_nothing() {
    let frame: Vec<u8> = vec![1, 2, 3, 4, 5, 6];
    let rgba = Camera::convert_frame(&frame, 4, 2, 1);
    // the second pixel would need bytes four to seven and is dropped
    assert_eq!(rgba, vec![3, 2, 1, 4]);
}

#[test]
fn glyph_coverage_packs_to_black_rgba() {
    assert_eq!(glyph_rgba(&vec![0, 0, 0]), None);
    assert_eq!(
        glyph_rgba(&vec![0, 128]),
        Some(vec![0, 0, 0, 0, 0, 0, 0, 128])
    );
}

#[test]
fn classify_assigns_depth_by_insertion_order() {
    let area = Area { offset: (0, 0), bounds: None };
    let sh = |w: i64| Item::Shape(Shape {
        shape: ShapeType::Rectangle(0, (w, 10), 0),
        color: Color(1, 2, 3, 4),
    });
    let items = vec![(area, sh(10)), (area, sh(20)), (area, sh(30))];
    let (colors, images) = classify(&items);
    assert_eq!(images.len(), 0);
    let zs: Vec<u16> = colors.iter().map(|d: &ColorDraw| d.z).collect();
    assert_eq!(zs, vec![0, 1, 2]);
    assert_eq!(colors[1].shape, ShapeType::Rectangle(0, (20, 10), 0));
}
