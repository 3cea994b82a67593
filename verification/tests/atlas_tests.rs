use wgpu_canvas::atlas::{Atlas, ImageAtlas, TextAtlas, content_hash};
use wgpu_canvas::scene::{prepare, Area, Item};
use wgpu_canvas::color::Color;
use wgpu_canvas::text::{Align, Font, GlyphUnits, Span, Text};

fn bytes_a() -> Vec<u8> {
    vec![1, 2, 3, 4, 5, 6, 7, 8]
}

fn bytes_b() -> Vec<u8> {
    vec![9, 9, 9, 9]
}

#[test]
fn content_hash_is_deterministic() {
    assert_eq!(content_hash(&bytes_a()), content_hash(&bytes_a()));
    assert_ne!(content_hash(&bytes_a()), content_hash(&bytes_b()));
}

#[test]
fn add_twice_returns_same_key_without_second_entry() {
    let mut atlas = ImageAtlas::new();
    let k1 = atlas.add(bytes_a(), 2, 1);
    let k2 = atlas.add(bytes_a(), 2, 1);
    assert_eq!(k1.key, k2.key);
    assert_eq!(atlas.len(), 1);
    assert_eq!(atlas.refs_of(k1.key), Some(2));
}

#[test]
fn prepare_uploads_identical_content_exactly_once() {
    let mut atlas = ImageAtlas::new();
    let k1 = atlas.add(bytes_a(), 2, 1);
    let k2 = atlas.add(bytes_a(), 2, 1);
    assert_eq!(k1.key, k2.key);
    let ups = atlas.prepare();
    assert_eq!(ups.len(), 1);
    assert_eq!(ups[0].key, k1.key);
    // a second pass uploads nothing: the entry is already cached
    let again = atlas.prepare();
    assert_eq!(again.len(), 0);
}

#[test]
fn prepare_uploads_distinct_content_separately() {
    let mut atlas = ImageAtlas::new();
    let ka = atlas.add(bytes_a(), 2, 1);
    let kb = atlas.add(bytes_b(), 1, 1);
    assert_ne!(ka.key, kb.key);
    let ups = atlas.prepare();
    assert_eq!(ups.len(), 2);
    assert_eq!(ups[0].key, ka.key);
    assert_eq!(ups[1].key, kb.key);
}

#[test]
fn trim_keeps_entries_with_live_handles() {
    let mut atlas = ImageAtlas::new();
    let k = atlas.add(bytes_a(), 2, 1);
    atlas.trim();
    assert!(atlas.try_get(k.key).is_some());
    assert_eq!(atlas.refs_of(k.key), Some(1));
}

#[test]
fn trim_evicts_after_last_release() {
    let mut atlas = ImageAtlas::new();
    let k = atlas.add(bytes_a(), 2, 1);
    atlas.clone_key(&k);
    atlas.release(&k);
    atlas.trim();
    assert!(atlas.try_get(k.key).is_some());
    atlas.release(&k);
    atlas.trim();
    assert!(atlas.try_get(k.key).is_none());
    assert_eq!(atlas.len(), 0);
}

#[test]
fn image_handle_reports_size() {
    let mut atlas = ImageAtlas::new();
    let k = atlas.add(bytes_a(), 2, 1);
    assert_eq!(k.size(), (2, 1));
    assert_eq!(atlas.get(k.key), k);
    assert_eq!(atlas.data_of(k.key), Some(bytes_a()));
}

fn tiny_font(id: u64) -> Font {
    Font {
        id,
        units_per_em: 1,
        ascent: 8,
        descent: -2,
        new_line_size: 12,
        glyphs: vec![(
            'a',
            GlyphUnits { advance: 10, xmin: 0, ymin: 0, width: 8, height: 8 },
        )],
    }
}

#[test]
fn font_cache_counts_handles_and_trims() {
    let mut text = TextAtlas::new();
    text.add_font(tiny_font(7));
    text.add_font(tiny_font(7));
    assert_eq!(text.len(), 1);
    text.release_font(7);
    text.trim();
    assert_eq!(text.len(), 1);
    text.release_font(7);
    text.trim();
    assert_eq!(text.len(), 0);
}

#[test]
fn glyph_cache_records_rasterizations_once() {
    let mut text = TextAtlas::new();
    text.add_font(tiny_font(7));
    assert_eq!(text.get_glyph(7, 'a'), None);
    let mut images = ImageAtlas::new();
    let img = images.add(bytes_a(), 8, 8);
    text.insert_glyph(7, 'a', Some(img));
    assert_eq!(text.get_glyph(7, 'a'), Some(Some(img)));
    // a second insertion does not replace the cached image
    let img2 = images.add(bytes_b(), 1, 1);
    text.insert_glyph(7, 'a', Some(img2));
    assert_eq!(text.get_glyph(7, 'a'), Some(Some(img)));
    // a blank glyph is cached as nothing to draw
    text.insert_glyph(7, ' ', None);
    assert_eq!(text.get_glyph(7, ' '), Some(None));
}

#[test]
fn placements_resolve_layout_through_the_glyph_cache() {
    let font = tiny_font(7);
    let sp = Span::new(vec!['a', 'a'], 1, None, font.clone(), Color(9, 9, 9, 255), 0);
    let text = Text::new(vec![sp], None, Align::Left, None);
    let lines = text.lines();
    let mut atlas = TextAtlas::new();
    atlas.add_font(font);
    let mut images = ImageAtlas::new();
    let img = images.add(bytes_a(), 8, 8);
    // before the glyph is rasterized nothing draws
    assert_eq!(atlas.get(&lines).len(), 0);
    atlas.insert_glyph(7, 'a', Some(img));
    let draws = atlas.get(&lines);
    assert_eq!(draws.len(), 2);
    assert_eq!(draws[0].image, img);
    assert_eq!((draws[0].x, draws[1].x), (0, 10));
    assert_eq!(draws[0].color, Color(9, 9, 9, 255));
}

#[test]
fn atlas_pair_starts_empty() {
    let atlas = Atlas::new();
    assert_eq!(atlas.image.len(), 0);
    assert_eq!(atlas.text.len(), 0);
}

#[test]
fn frame_prepare_evicts_before_uploading() {
    let mut atlas = Atlas::new();
    let k = atlas.image.add(bytes_a(), 2, 1);
    let items: Vec<(Area, Item)> = Vec::new();
    // first frame: the live entry is uploaded once
    let (ups, colors, images) = prepare(&mut atlas, &items);
    assert_eq!(ups.len(), 1);
    assert_eq!((colors.len(), images.len()), (0, 0));
    // the handle is dropped: the next frame trims the entry before any
    // upload, so nothing is uploaded and the key is gone
    atlas.image.release(&k);
    let (ups, _, _) = prepare(&mut atlas, &items);
    assert_eq!(ups.len(), 0);
    assert!(atlas.image.try_get(k.key).is_none());
    // identical content added afterwards makes a fresh pending entry
    let k2 = atlas.image.add(bytes_a(), 2, 1);
    assert_eq!(k2.key, k.key);
    let (ups, _, _) = prepare(&mut atlas, &items);
    assert_eq!(ups.len(), 1);
}
