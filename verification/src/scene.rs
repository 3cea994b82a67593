//! Scene items and per-frame classification: each drawable gets a depth
//! slot from its insertion order, shapes and images part ways toward
//! their pipelines, and text expands into per-glyph image placements.
use vstd::prelude::*;
use crate::atlas;
use crate::atlas::{Atlas, Image as ImageHandle, is_pending, mark_uploaded, trimmed,
    fonts_trimmed};
use crate::color::Color;
use crate::shape::{ShapeType, MAX_COORD};
use crate::text::Text;

verus! {

/// Placement of one drawable item: its offset and optional clip bounds.
#[derive(Debug, Clone, Copy, PartialEq)]
pub struct Area {
    /// The top-left placement offset, in units.
    pub offset: (i64, i64),
    /// Optional clip bounds `(x, y, w, h)`, in units.
    pub bounds: Option<(i64, i64, i64, i64)>,
}

impl Area {
    /// Whether the placement's coordinates are within the engine's range.
    pub open spec fn wf(&self) -> bool {
        &&& -MAX_COORD <= self.offset.0 <= MAX_COORD
        &&& -MAX_COORD <= self.offset.1 <= MAX_COORD
        &&& match self.bounds {
            Some((x, y, w, h)) => {
                &&& -MAX_COORD <= x <= MAX_COORD
                &&& -MAX_COORD <= y <= MAX_COORD
                &&& -MAX_COORD <= w <= MAX_COORD
                &&& -MAX_COORD <= h <= MAX_COORD
            },
            None => true,
        }
    }
}

/// A filled shape item.
#[derive(Debug, Clone, Copy, PartialEq)]
pub struct Shape {
    /// The shape descriptor.
    pub shape: ShapeType,
    /// The fill color.
    pub color: Color,
}

/// An image item: a shape filled by a cached image resource.
#[derive(Debug, Clone, Copy, PartialEq)]
pub struct Image {
    /// The shape the image fills.
    pub shape: ShapeType,
    /// The handle of the cached image.
    pub image: atlas::Image,
    /// An optional tint color.
    pub color: Option<Color>,
}

/// One drawable item of a scene.
#[derive(Debug, Clone, PartialEq)]
pub enum Item {
    Shape(Shape),
    Image(Image),
    Text(Text),
}

/// A shape draw: its depth slot, placement, descriptor and color.
#[derive(Debug, Clone, Copy, PartialEq)]
pub struct ColorDraw {
    /// The depth slot, back to front by insertion order.
    pub z: u16,
    /// The placement of the item.
    pub area: Area,
    /// The shape descriptor.
    pub shape: ShapeType,
    /// The fill color.
    pub color: Color,
}

/// An image draw: its depth slot, placement, descriptor, image handle and
/// optional tint.
#[derive(Debug, Clone, Copy, PartialEq)]
pub struct ImageDraw {
    /// The depth slot, back to front by insertion order.
    pub z: u16,
    /// The placement of the item.
    pub area: Area,
    /// The shape the image fills.
    pub shape: ShapeType,
    /// The handle of the cached image.
    pub image: atlas::Image,
    /// An optional tint color.
    pub color: Option<Color>,
}

/// The draw lists of the items from `t` on: shapes and images in order,
/// each draw carrying its item's index as its depth slot.
pub open spec fn spec_classify(items: Seq<(Area, Item)>, t: int)
    -> (Seq<ColorDraw>, Seq<ImageDraw>)
    decreases items.len() - t,
{
    if t < 0 || t >= items.len() {
        (Seq::empty(), Seq::empty())
    } else {
        let (cs, ms) = spec_classify(items, t + 1);
        match items[t].1 {
            Item::Shape(sh) => (seq![ColorDraw { z: t as u16, area: items[t].0,
                shape: sh.shape, color: sh.color }] + cs, ms),
            Item::Image(m) => (cs, seq![ImageDraw { z: t as u16, area: items[t].0,
                shape: m.shape, image: m.image, color: m.color }] + ms),
            Item::Text(_) => (cs, ms),
        }
    }
}

/// Split the scene's shape and image items into their draw lists. Items
/// keep their insertion order, and each draw carries the index of its
/// item as its depth slot, so depth order always matches insertion order;
/// text items are expanded separately by the text atlas.
pub fn classify(items: &Vec<(Area, Item)>) -> (r: (Vec<ColorDraw>, Vec<ImageDraw>))
    requires
        items@.len() <= 65536,
    ensures
        r.0@ == spec_classify(items@, 0).0,
        r.1@ == spec_classify(items@, 0).1,
{
    let mut colors: Vec<ColorDraw> = Vec::new();
    let mut images: Vec<ImageDraw> = Vec::new();
    let mut t: usize = 0;
    proof {
        assert(colors@ + spec_classify(items@, 0).0 =~= spec_classify(items@, 0).0);
        assert(images@ + spec_classify(items@, 0).1 =~= spec_classify(items@, 0).1);
    }
    while t < items.len()
        invariant
            t <= items@.len() <= 65536,
            spec_classify(items@, 0).0 == colors@ + spec_classify(items@, t as int).0,
            spec_classify(items@, 0).1 == images@ + spec_classify(items@, t as int).1,
        decreases items@.len() - t,
    {
        let (area, item) = &items[t];
        match item {
            Item::Shape(sh) => {
                let d = ColorDraw { z: t as u16, area: *area, shape: sh.shape,
                    color: sh.color };
                proof {
                    lemma_classify_step_shape(items@, t as int, colors@, images@, d);
                }
                colors.push(d);
            },
            Item::Image(m) => {
                let d = ImageDraw { z: t as u16, area: *area, shape: m.shape,
                    image: m.image, color: m.color };
                proof {
                    lemma_classify_step_image(items@, t as int, colors@, images@, d);
                }
                images.push(d);
            },
            Item::Text(_) => {},
        }
        t += 1;
    }
    (colors, images)
}

/// Appending the shape draw of one item carries the classification on.
proof fn lemma_classify_step_shape(items: Seq<(Area, Item)>, t: int, cs: Seq<ColorDraw>,
    ms: Seq<ImageDraw>, d: ColorDraw)
    requires
        0 <= t < items.len(),
        items[t].1 matches Item::Shape(sh) && d == (ColorDraw { z: t as u16,
            area: items[t].0, shape: sh.shape, color: sh.color }),
        spec_classify(items, 0).0 == cs + spec_classify(items, t).0,
        spec_classify(items, 0).1 == ms + spec_classify(items, t).1,
    ensures
        spec_classify(items, 0).0 == cs.push(d) + spec_classify(items, t + 1).0,
        spec_classify(items, 0).1 == ms + spec_classify(items, t + 1).1,
{
    assert(spec_classify(items, t).0
        =~= seq![d] + spec_classify(items, t + 1).0);
    assert(cs + (seq![d] + spec_classify(items, t + 1).0)
        =~= cs.push(d) + spec_classify(items, t + 1).0);
}

/// Appending the image draw of one item carries the classification on.
proof fn lemma_classify_step_image(items: Seq<(Area, Item)>, t: int, cs: Seq<ColorDraw>,
    ms: Seq<ImageDraw>, d: ImageDraw)
    requires
        0 <= t < items.len(),
        items[t].1 matches Item::Image(m) && d == (ImageDraw { z: t as u16,
            area: items[t].0, shape: m.shape, image: m.image, color: m.color }),
        spec_classify(items, 0).0 == cs + spec_classify(items, t).0,
        spec_classify(items, 0).1 == ms + spec_classify(items, t).1,
    ensures
        spec_classify(items, 0).0 == cs + spec_classify(items, t + 1).0,
        spec_classify(items, 0).1 == ms.push(d) + spec_classify(items, t + 1).1,
{
    assert(spec_classify(items, t).1
        =~= seq![d] + spec_classify(items, t + 1).1);
    assert(ms + (seq![d] + spec_classify(items, t + 1).1)
        =~= ms.push(d) + spec_classify(items, t + 1).1);
}

/// Depth slots follow insertion order: within each draw list the slots
/// strictly increase, so items are never reordered within a pipeline.
pub proof fn lemma_z_order_stable(items: Seq<(Area, Item)>, t: int)
    requires
        items.len() <= 65536,
        0 <= t,
    ensures
        forall|i: int, j: int| 0 <= i < j < spec_classify(items, t).0.len()
            ==> (#[trigger] spec_classify(items, t).0[i]).z
                < (#[trigger] spec_classify(items, t).0[j]).z,
        forall|i: int, j: int| 0 <= i < j < spec_classify(items, t).1.len()
            ==> (#[trigger] spec_classify(items, t).1[i]).z
                < (#[trigger] spec_classify(items, t).1[j]).z,
        forall|i: int| 0 <= i < spec_classify(items, t).0.len()
            ==> t <= (#[trigger] spec_classify(items, t).0[i]).z < items.len(),
        forall|i: int| 0 <= i < spec_classify(items, t).1.len()
            ==> t <= (#[trigger] spec_classify(items, t).1[i]).z < items.len(),
    decreases items.len() - t,
{
    if 0 <= t < items.len() {
        lemma_z_order_stable(items, t + 1);
    }
}

/// Prepare one frame's resources: resources released since the last frame
/// are evicted from both atlases before anything new is uploaded, so a
/// handle dropped this frame never blocks reuse of the same content; then
/// every still-pending image is reported for upload exactly once, and the
/// scene's shape and image items are split into their draw lists. Text
/// items are expanded against the glyph cache by the caller, text by text.
pub fn prepare(atlas: &mut Atlas, items: &Vec<(Area, Item)>)
    -> (r: (Vec<ImageHandle>, Vec<ColorDraw>, Vec<ImageDraw>))
    requires
        old(atlas).image.wf(),
        old(atlas).text.wf(),
        items@.len() <= 65536,
    ensures
        final(atlas).image.wf(),
        final(atlas).text.wf(),
        final(atlas).text.view_fonts() == fonts_trimmed(old(atlas).text.view_fonts()),
        final(atlas).image.view_entries() == trimmed(old(atlas).image.view_entries())
            .map_values(|e: atlas::Entry| mark_uploaded(e)),
        r.0@ == trimmed(old(atlas).image.view_entries())
            .filter(|e: atlas::Entry| is_pending(e))
            .map_values(|e: atlas::Entry| e.image),
        r.1@ == spec_classify(items@, 0).0,
        r.2@ == spec_classify(items@, 0).1,
{
    atlas.text.trim();
    atlas.image.trim();
    let ups = atlas.image.prepare();
    let (colors, images) = classify(items);
    (ups, colors, images)
}

/// Expand one text item into image draws: every resolved glyph becomes an
/// unrotated, unstroked rectangle of the glyph's box, offset into the
/// item's area, clipped by the item's bounds, tinted with the glyph's
/// color, and stamped with the item's own depth slot.
pub fn text_draws(draws: &Vec<atlas::GlyphDraw>, area: Area, z: u16)
    -> (r: Vec<ImageDraw>)
    requires
        area.wf(),
        forall|i: int| 0 <= i < draws@.len() ==> {
            &&& -MAX_COORD <= (#[trigger] draws@[i]).x <= MAX_COORD
            &&& -MAX_COORD <= draws@[i].y <= MAX_COORD
            &&& 0 <= draws@[i].w <= MAX_COORD
            &&& 0 <= draws@[i].h <= MAX_COORD
        },
    ensures
        r@.len() == draws@.len(),
        forall|i: int| 0 <= i < draws@.len() ==> {
            let d = #[trigger] draws@[i];
            r@[i] == (ImageDraw {
                z: z,
                area: Area {
                    offset: ((area.offset.0 + d.x) as i64, (area.offset.1 + d.y) as i64),
                    bounds: area.bounds,
                },
                shape: ShapeType::Rectangle(0, (d.w as i64, d.h as i64), 0),
                image: d.image,
                color: Some(d.color),
            })
        },
{
    let mut r: Vec<ImageDraw> = Vec::new();
    let mut i: usize = 0;
    while i < draws.len()
        invariant
            i <= draws@.len(),
            area.wf(),
            forall|j: int| 0 <= j < draws@.len() ==> {
                &&& -MAX_COORD <= (#[trigger] draws@[j]).x <= MAX_COORD
                &&& -MAX_COORD <= draws@[j].y <= MAX_COORD
                &&& 0 <= draws@[j].w <= MAX_COORD
                &&& 0 <= draws@[j].h <= MAX_COORD
            },
            r@.len() == i,
            forall|j: int| 0 <= j < i ==> {
                let d = #[trigger] draws@[j];
                r@[j] == (ImageDraw {
                    z: z,
                    area: Area {
                        offset: ((area.offset.0 + d.x) as i64,
                            (area.offset.1 + d.y) as i64),
                        bounds: area.bounds,
                    },
                    shape: ShapeType::Rectangle(0, (d.w as i64, d.h as i64), 0),
                    image: d.image,
                    color: Some(d.color),
                })
            },
        decreases draws@.len() - i,
    {
        let d = draws[i];
        let ox: i64 = area.offset.0 + (d.x as i64);
        let oy: i64 = area.offset.1 + (d.y as i64);
        r.push(ImageDraw {
            z,
            area: Area { offset: (ox, oy), bounds: area.bounds },
            shape: ShapeType::Rectangle(0, (d.w as i64, d.h as i64), 0),
            image: d.image,
            color: Some(d.color),
        });
        i += 1;
    }
    r
}

/// The index ranges of the quads of one image among the draws: each draw
/// of that image contributes its own quad's six indices.
pub open spec fn spec_ranges_of(draws: Seq<ImageDraw>, key: u64) -> Seq<(u32, u32)>
    decreases draws.len(),
{
    if draws.len() == 0 {
        Seq::empty()
    } else {
        spec_ranges_of(draws.drop_last(), key) + (
        if draws.last().image.key == key {
            seq![((6 * (draws.len() - 1)) as u32, (6 * draws.len()) as u32)]
        } else {
            Seq::empty()
        })
    }
}

/// One batch of image draws: an image's key and the index ranges of its
/// quads.
#[derive(Debug, Clone, PartialEq)]
pub struct DrawBatch {
    /// The content key of the image the batch binds.
    pub key: u64,
    /// The index ranges of the batch's quads.
    pub ranges: Vec<(u32, u32)>,
}

/// A key occurs among the ranges only if some draw carries it.
proof fn lemma_ranges_nonempty_means_drawn(draws: Seq<ImageDraw>, key: u64)
    requires
        spec_ranges_of(draws, key).len() > 0,
    ensures
        exists|q: int| 0 <= q < draws.len()
            && (#[trigger] draws[q]).image.key == key,
    decreases draws.len(),
{
    if draws.len() > 0 {
        if draws.last().image.key == key {
            assert(draws[draws.len() - 1].image.key == key);
        } else {
            lemma_ranges_nonempty_means_drawn(draws.drop_last(), key);
            let q = choose|q: int| 0 <= q < draws.drop_last().len()
                && (#[trigger] draws.drop_last()[q]).image.key == key;
            assert(draws[q].image.key == key);
        }
    }
}

/// One more draw extends exactly its own image's ranges.
proof fn lemma_ranges_step(draws: Seq<ImageDraw>, q: int, key: u64)
    requires
        0 <= q < draws.len(),
    ensures
        draws[q].image.key == key ==> spec_ranges_of(draws.take(q + 1), key)
            == spec_ranges_of(draws.take(q), key).push(
                ((6 * q) as u32, (6 * q + 6) as u32)),
        draws[q].image.key != key ==> spec_ranges_of(draws.take(q + 1), key)
            == spec_ranges_of(draws.take(q), key),
{
    assert(draws.take(q + 1).drop_last() =~= draws.take(q));
    assert(draws.take(q + 1).last() == draws[q]);
    if draws[q].image.key == key {
        assert(spec_ranges_of(draws.take(q), key) + seq![((6 * q) as u32,
            (6 * q + 6) as u32)] =~= spec_ranges_of(draws.take(q), key).push(
            ((6 * q) as u32, (6 * q + 6) as u32)));
    } else {
        assert(spec_ranges_of(draws.take(q), key) + Seq::<(u32, u32)>::empty()
            =~= spec_ranges_of(draws.take(q), key));
    }
}

/// Group image draws by their image: one batch per distinct key, in first
/// appearance order, each holding exactly the index ranges of its image's
/// quads; every draw's image has its batch.
pub fn batch_images(draws: &Vec<ImageDraw>) -> (r: Vec<DrawBatch>)
    requires
        draws@.len() <= 16384,
    ensures
        forall|i: int, j: int| 0 <= i < j < r@.len()
            ==> (#[trigger] r@[i]).key != (#[trigger] r@[j]).key,
        forall|i: int| 0 <= i < r@.len() ==> (#[trigger] r@[i]).ranges@
            == spec_ranges_of(draws@, r@[i].key),
        forall|q: int| 0 <= q < draws@.len() ==> exists|i: int| 0 <= i < r@.len()
            && (#[trigger] r@[i]).key == (#[trigger] draws@[q]).image.key,
{
    let mut r: Vec<DrawBatch> = Vec::new();
    let mut q: usize = 0;
    proof {
        assert(draws@.take(0) =~= Seq::<ImageDraw>::empty());
    }
    while q < draws.len()
        invariant
            q <= draws@.len() <= 16384,
            forall|i: int, j: int| 0 <= i < j < r@.len()
                ==> (#[trigger] r@[i]).key != (#[trigger] r@[j]).key,
            forall|i: int| 0 <= i < r@.len() ==> (#[trigger] r@[i]).ranges@
                == spec_ranges_of(draws@.take(q as int), r@[i].key),
            forall|t: int| 0 <= t < q ==> exists|i: int| 0 <= i < r@.len()
                && (#[trigger] r@[i]).key == (#[trigger] draws@[t]).image.key,
        decreases draws@.len() - q,
    {
        let key = draws[q].image.key;
        let mut found: Option<usize> = None;
        let mut bi: usize = 0;
        while bi < r.len() && found.is_none()
            invariant
                bi <= r@.len(),
                found is None ==> forall|i: int| 0 <= i < bi
                    ==> (#[trigger] r@[i]).key != key,
                found matches Some(f) ==> f < r@.len() && r@[f as int].key == key,
            decreases r@.len() - bi + (if found is None { 1int } else { 0int }),
        {
            if r[bi].key == key {
                found = Some(bi);
            } else {
                bi += 1;
            }
        }
        proof {
            if found is None {
                assert(bi == r@.len());
            }
        }
        let ghost pre = r@;
        proof {
            lemma_ranges_step(draws@, q as int, key);
            assert(forall|t: int| 0 <= t < q ==> exists|i: int| 0 <= i < pre.len()
                && (#[trigger] pre[i]).key == (#[trigger] draws@[t]).image.key);
        }
        match found {
            Some(f) => {
                r[f].ranges.push(((6 * q) as u32, (6 * q + 6) as u32));
                proof {
                    assert(r@.len() == pre.len());
                    assert(r@[f as int].key == pre[f as int].key);
                    assert(r@[f as int].ranges@ == pre[f as int].ranges@.push(
                        ((6 * q as int) as u32, (6 * q as int + 6) as u32)));
                    assert(forall|i: int| 0 <= i < r@.len() && i != f as int
                        ==> #[trigger] r@[i] == pre[i]);
                    assert(forall|i: int| 0 <= i < pre.len()
                        ==> (#[trigger] r@[i]).key == pre[i].key);
                    assert(exists|i: int| 0 <= i < r@.len()
                        && (#[trigger] r@[i]).key == key) by {
                        assert(r@[f as int].key == key);
                    }
                    assert forall|i: int| 0 <= i < r@.len()
                        implies (#[trigger] r@[i]).ranges@ == spec_ranges_of(
                        draws@.take(q as int + 1), r@[i].key) by {
                        if i != f as int {
                            assert(r@[i] == pre[i]);
                            lemma_ranges_step(draws@, q as int, pre[i].key);
                        } else {
                            assert(r@[i].key == key);
                            assert(r@[i].ranges@ == pre[i].ranges@.push(
                                ((6 * q as int) as u32, (6 * q as int + 6) as u32)));
                        }
                    }
                }
            },
            None => {
                proof {
                    if spec_ranges_of(draws@.take(q as int), key).len() > 0 {
                        lemma_ranges_nonempty_means_drawn(draws@.take(q as int), key);
                        let t = choose|t: int| 0 <= t < draws@.take(q as int).len()
                            && (#[trigger] draws@.take(q as int)[t]).image.key == key;
                        assert(draws@.take(q as int)[t] == draws@[t]);
                        assert(draws@[t].image.key == key);
                        assert(exists|i: int| 0 <= i < r@.len()
                            && (#[trigger] r@[i]).key == draws@[t].image.key);
                        let i = choose|i: int| 0 <= i < r@.len()
                            && (#[trigger] r@[i]).key == draws@[t].image.key;
                        assert(r@[i].key == key);
                        assert(false);
                    }
                    assert(spec_ranges_of(draws@.take(q as int), key)
                        =~= Seq::<(u32, u32)>::empty());
                }
                let mut ranges: Vec<(u32, u32)> = Vec::new();
                ranges.push(((6 * q) as u32, (6 * q + 6) as u32));
                proof {
                    assert(ranges@ =~= spec_ranges_of(draws@.take(q as int), key).push(
                        ((6 * q as int) as u32, (6 * q as int + 6) as u32)));
                }
                r.push(DrawBatch { key, ranges });
                proof {
                    assert forall|i: int| 0 <= i < r@.len()
                        implies (#[trigger] r@[i]).ranges@ == spec_ranges_of(
                        draws@.take(q as int + 1), r@[i].key) by {
                        if i < pre.len() {
                            assert(r@[i] == pre[i]);
                            lemma_ranges_step(draws@, q as int, pre[i].key);
                        }
                    }
                    assert(forall|i: int| 0 <= i < pre.len()
                        ==> (#[trigger] r@[i]).key == pre[i].key);
                    assert(exists|i: int| 0 <= i < r@.len()
                        && (#[trigger] r@[i]).key == key) by {
                        assert(r@[pre.len() as int].key == key);
                    }
                }
            },
        }
        proof {
            assert forall|t: int| 0 <= t < q + 1 implies exists|i: int|
                0 <= i < r@.len() && (#[trigger] r@[i]).key
                == (#[trigger] draws@[t]).image.key by {
                if t < q as int {
                    let i = choose|i: int| 0 <= i < pre.len()
                        && (#[trigger] pre[i]).key == draws@[t].image.key;
                    assert(r@[i].key == pre[i].key);
                    assert(r@[i].key == draws@[t].image.key);
                } else {
                    assert(draws@[t].image.key == key);
                    let i = choose|i: int| 0 <= i < r@.len()
                        && (#[trigger] r@[i]).key == key;
                    assert(r@[i].key == draws@[t].image.key);
                }
            }
        }
        q += 1;
    }
    proof {
        assert(draws@.take(draws@.len() as int) =~= draws@);
    }
    r
}

/// Batching law: the ranges of the batches exactly tile the index buffer,
/// one six-index quad per draw, without overlap — quad `q`'s range lies in
/// the batch of its own image's key and in no other.
pub proof fn lemma_batches_cover(draws: Seq<ImageDraw>, q: int)
    requires
        0 <= q < draws.len(),
        draws.len() <= 16384,
    ensures
        spec_ranges_of(draws, draws[q].image.key).contains(
            ((6 * q) as u32, (6 * q + 6) as u32)),
        forall|k: u64| k != draws[q].image.key ==> !spec_ranges_of(draws, k).contains(
            ((6 * q) as u32, (6 * q + 6) as u32)),
    decreases draws.len(),
{
    let n = draws.len() as int;
    let e = ((6 * q) as u32, (6 * q + 6) as u32);
    if q == n - 1 {
        assert(spec_ranges_of(draws, draws[q].image.key).last() == e);
        assert(spec_ranges_of(draws, draws[q].image.key).contains(e));
    } else {
        lemma_batches_cover(draws.drop_last(), q);
        assert(draws.drop_last()[q] == draws[q]);
        let key = draws[q].image.key;
        let sub = spec_ranges_of(draws.drop_last(), key);
        assert(sub.contains(e));
        let w = choose|w: int| 0 <= w < sub.len() && sub[w] == e;
        assert(spec_ranges_of(draws, key)[w] == e);
        assert(spec_ranges_of(draws, key).contains(e));
    }
    assert forall|k: u64| k != draws[q].image.key
        implies !spec_ranges_of(draws, k).contains(e) by {
        if spec_ranges_of(draws, k).contains(e) {
            let w = choose|w: int| 0 <= w < spec_ranges_of(draws, k).len()
                && spec_ranges_of(draws, k)[w] == e;
            lemma_ranges_elements(draws, k, w);
            let t = choose|t: int| 0 <= t < draws.len()
                && (#[trigger] draws[t]).image.key == k
                && spec_ranges_of(draws, k)[w]
                    == (((6 * t) as u32, (6 * t + 6) as u32));
            assert((6 * t) as u32 == (6 * q) as u32);
            assert(0 <= 6 * t < 0x1_0000_0000 && 0 <= 6 * q < 0x1_0000_0000);
            assert(6 * t == 6 * q);
            assert(t == q);
        }
    }
}

/// Every range of an image's quads belongs to a draw of that image.
proof fn lemma_ranges_elements(draws: Seq<ImageDraw>, key: u64, w: int)
    requires
        draws.len() <= 16384,
        0 <= w < spec_ranges_of(draws, key).len(),
    ensures
        exists|t: int| 0 <= t < draws.len()
            && (#[trigger] draws[t]).image.key == key
            && spec_ranges_of(draws, key)[w]
                == (((6 * t) as u32, (6 * t + 6) as u32)),
    decreases draws.len(),
{
    let sub = spec_ranges_of(draws.drop_last(), key);
    if w < sub.len() {
        assert(spec_ranges_of(draws, key)[w] == sub[w]);
        lemma_ranges_elements(draws.drop_last(), key, w);
        let t = choose|t: int| 0 <= t < draws.drop_last().len()
            && (#[trigger] draws.drop_last()[t]).image.key == key
            && sub[w] == (((6 * t) as u32, (6 * t + 6) as u32));
        assert(draws[t].image.key == key);
        assert(spec_ranges_of(draws, key)[w]
            == (((6 * t) as u32, (6 * t + 6) as u32)));
    } else {
        assert(draws.last().image.key == key);
        let t: int = draws.len() - 1;
        assert(draws[t].image.key == key);
        assert(spec_ranges_of(draws, key)[w]
            == (((6 * (draws.len() - 1)) as u32, (6 * draws.len()) as u32)));
        assert(6 * t == 6 * (draws.len() - 1));
        assert(6 * t + 6 == 6 * draws.len());
        assert(spec_ranges_of(draws, key)[w]
            == (((6 * t) as u32, (6 * t + 6) as u32)));
    }
}

} // verus!