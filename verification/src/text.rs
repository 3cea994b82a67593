//! Styled text and its layout: spans are broken on newlines and
//! whitespace-inclusive words, measured through per-glyph font metrics,
//! wrapped against an optional maximum width, aligned, and truncated to an
//! optional maximum line count with a trailing ellipsis.
//!
//! All metrics are integer units; a font stores per-em units and metrics
//! are scaled by `font_size / units_per_em` with truncating division.
use vstd::prelude::*;
use crate::color::Color;
use crate::num::sdiv;

verus! {

/// The largest magnitude a font metric, size or kerning value may carry.
pub const MAX_FONT_UNIT: i64 = 0x10_0000;

/// The largest magnitude a scaled metric can reach.
pub const SCALED_MAX: i64 = 0x100_0000_0000;

/// The widest step one placed character can take: a scaled advance plus
/// kerning, with slack.
pub const CHAR_STEP: i128 = 0x200_0000_0000;

/// A byte-level cursor index into a laid-out text.
pub type Cursor = usize;

/// The metrics of one glyph, in per-em font units.
#[derive(Debug, Clone, Copy, PartialEq, Eq, Structural)]
pub struct GlyphUnits {
    /// How far the pen advances after the glyph.
    pub advance: i64,
    /// The left bearing of the glyph's box.
    pub xmin: i64,
    /// The bottom bearing of the glyph's box.
    pub ymin: i64,
    /// The width of the glyph's box.
    pub width: i64,
    /// The height of the glyph's box.
    pub height: i64,
}

/// Whether every field of a glyph is within the accepted metric range.
pub open spec fn glyph_units_wf(g: GlyphUnits) -> bool {
    &&& -MAX_FONT_UNIT <= g.advance <= MAX_FONT_UNIT
    &&& -MAX_FONT_UNIT <= g.xmin <= MAX_FONT_UNIT
    &&& -MAX_FONT_UNIT <= g.ymin <= MAX_FONT_UNIT
    &&& -MAX_FONT_UNIT <= g.width <= MAX_FONT_UNIT
    &&& -MAX_FONT_UNIT <= g.height <= MAX_FONT_UNIT
}

/// A font face: an identifier, its per-em scale, its line metrics, and a
/// table of per-glyph metrics. A glyph absent from the table is laid out
/// with zero metrics.
#[derive(Debug, Clone, PartialEq)]
pub struct Font {
    /// The identity of the face; faces with equal tables may share one.
    pub id: u64,
    /// How many units one em spans; metrics scale by `size / units_per_em`.
    pub units_per_em: i64,
    /// The ascent of the face, in per-em units.
    pub ascent: i64,
    /// The descent of the face, in per-em units.
    pub descent: i64,
    /// The default line height, in per-em units.
    pub new_line_size: i64,
    /// The glyph metric table.
    pub glyphs: Vec<(char, GlyphUnits)>,
}

impl Font {
    /// Whether the face's metrics are within the accepted range.
    pub open spec fn wf(&self) -> bool {
        &&& 1 <= self.units_per_em <= MAX_FONT_UNIT
        &&& -MAX_FONT_UNIT <= self.ascent <= MAX_FONT_UNIT
        &&& -MAX_FONT_UNIT <= self.descent <= MAX_FONT_UNIT
        &&& 0 <= self.new_line_size <= MAX_FONT_UNIT
        &&& forall|i: int| 0 <= i < self.glyphs@.len()
            ==> glyph_units_wf((#[trigger] self.glyphs@[i]).1)
    }
}

/// The metrics of `c` in a glyph table: the first match, else zero metrics.
pub open spec fn spec_glyph_of(glyphs: Seq<(char, GlyphUnits)>, c: char) -> GlyphUnits
    decreases glyphs.len(),
{
    if glyphs.len() == 0 {
        GlyphUnits { advance: 0, xmin: 0, ymin: 0, width: 0, height: 0 }
    } else if glyphs[0].0 == c {
        glyphs[0].1
    } else {
        spec_glyph_of(glyphs.skip(1), c)
    }
}

/// A table of well-formed glyphs only yields well-formed metrics.
pub proof fn lemma_glyph_of_wf(glyphs: Seq<(char, GlyphUnits)>, c: char)
    requires
        forall|i: int| 0 <= i < glyphs.len()
            ==> glyph_units_wf((#[trigger] glyphs[i]).1),
    ensures
        glyph_units_wf(spec_glyph_of(glyphs, c)),
    decreases glyphs.len(),
{
    if glyphs.len() > 0 && glyphs[0].0 != c {
        assert(forall|i: int| 0 <= i < glyphs.skip(1).len()
            ==> glyph_units_wf((#[trigger] glyphs.skip(1)[i]).1));
        lemma_glyph_of_wf(glyphs.skip(1), c);
    }
}

impl Font {
    /// The per-em metrics of one glyph.
    pub fn glyph_of(&self, c: char) -> (g: GlyphUnits)
        ensures
            g == spec_glyph_of(self.glyphs@, c),
    {
        let mut i: usize = 0;
        proof {
            assert(self.glyphs@.skip(0) =~= self.glyphs@);
        }
        while i < self.glyphs.len()
            invariant
                i <= self.glyphs.len(),
                spec_glyph_of(self.glyphs@.skip(i as int), c)
                    == spec_glyph_of(self.glyphs@, c),
            decreases self.glyphs.len() - i,
        {
            let ghost pre = self.glyphs@.skip(i as int);
            if self.glyphs[i].0 == c {
                return self.glyphs[i].1;
            }
            proof {
                assert(pre.skip(1) =~= self.glyphs@.skip(i as int + 1));
            }
            i += 1;
        }
        proof {
            assert(self.glyphs@.skip(self.glyphs@.len() as int) =~= Seq::<(
            char, GlyphUnits)>::empty());
        }
        GlyphUnits { advance: 0, xmin: 0, ymin: 0, width: 0, height: 0 }
    }
}

/// A metric scaled from per-em units to a size: `v * size / units_per_em`,
/// truncating toward zero.
pub open spec fn spec_scale(v: int, size: int, upem: int) -> int {
    sdiv(v * size, upem)
}

/// Executable metric scaling.
pub fn scale_metric(v: i64, size: i64, upem: i64) -> (r: i64)
    requires
        -MAX_FONT_UNIT <= v <= MAX_FONT_UNIT,
        0 < size <= MAX_FONT_UNIT,
        1 <= upem <= MAX_FONT_UNIT,
    ensures
        r == spec_scale(v as int, size as int, upem as int),
        -SCALED_MAX <= r <= SCALED_MAX,
{
    proof {
        assert(-(0x100_0000_0000 as int) <= v * size <= 0x100_0000_0000) by (nonlinear_arith)
            requires -0x10_0000 <= v <= 0x10_0000 && 0 < size <= 0x10_0000;
        crate::num::lemma_sdiv_bound(v as int * size as int, upem as int);
    }
    crate::num::div_trunc(v * size, upem)
}

/// The scaled metrics of one glyph at a span's size.
pub open spec fn spec_scaled_glyph(font: Font, c: char, size: int) -> GlyphUnits {
    let g = spec_glyph_of(font.glyphs@, c);
    GlyphUnits {
        advance: spec_scale(g.advance as int, size, font.units_per_em as int) as i64,
        xmin: spec_scale(g.xmin as int, size, font.units_per_em as int) as i64,
        ymin: spec_scale(g.ymin as int, size, font.units_per_em as int) as i64,
        width: spec_scale(g.width as int, size, font.units_per_em as int) as i64,
        height: spec_scale(g.height as int, size, font.units_per_em as int) as i64,
    }
}

/// Whether every field of a scaled glyph is within the scaled range.
pub open spec fn scaled_glyph_wf(g: GlyphUnits) -> bool {
    &&& -SCALED_MAX <= g.advance <= SCALED_MAX
    &&& -SCALED_MAX <= g.xmin <= SCALED_MAX
    &&& -SCALED_MAX <= g.ymin <= SCALED_MAX
    &&& -SCALED_MAX <= g.width <= SCALED_MAX
    &&& -SCALED_MAX <= g.height <= SCALED_MAX
}

/// Executable scaled glyph metrics.
pub fn scaled_glyph(font: &Font, c: char, size: i64) -> (g: GlyphUnits)
    requires
        font.wf(),
        0 < size <= MAX_FONT_UNIT,
    ensures
        g == spec_scaled_glyph(*font, c, size as int),
        scaled_glyph_wf(g),
{
    let u = self_glyph(font, c);
    GlyphUnits {
        advance: scale_metric(u.advance, size, font.units_per_em),
        xmin: scale_metric(u.xmin, size, font.units_per_em),
        ymin: scale_metric(u.ymin, size, font.units_per_em),
        width: scale_metric(u.width, size, font.units_per_em),
        height: scale_metric(u.height, size, font.units_per_em),
    }
}

/// The per-em metrics of a glyph, with well-formedness carried over.
fn self_glyph(font: &Font, c: char) -> (g: GlyphUnits)
    requires
        font.wf(),
    ensures
        g == spec_glyph_of(font.glyphs@, c),
        glyph_units_wf(g),
{
    proof {
        lemma_glyph_of_wf(font.glyphs@, c);
    }
    font.glyph_of(c)
}

/// Whether a character breaks words: the Unicode whitespace set.
pub open spec fn is_ws(c: char) -> bool {
    c == ' ' || c == '\t' || c == '\n' || c == '\r' || c == '\u{b}' || c == '\u{c}'
        || c == '\u{85}' || c == '\u{a0}' || c == '\u{1680}'
        || ('\u{2000}' <= c && c <= '\u{200a}') || c == '\u{2028}' || c == '\u{2029}'
        || c == '\u{202f}' || c == '\u{205f}' || c == '\u{3000}'
}

/// Executable whitespace test.
pub fn is_ws_exec(c: char) -> (r: bool)
    ensures
        r == is_ws(c),
{
    c == ' ' || c == '\t' || c == '\n' || c == '\r' || c == '\u{b}' || c == '\u{c}'
        || c == '\u{85}' || c == '\u{a0}' || c == '\u{1680}'
        || ('\u{2000}' <= c && c <= '\u{200a}') || c == '\u{2028}' || c == '\u{2029}'
        || c == '\u{202f}' || c == '\u{205f}' || c == '\u{3000}'
}

/// The length of the word at the head of `s`: a maximal run of characters
/// ending at the first whitespace (inclusive) or at the end of the text,
/// and stopping before an explicit newline.
pub open spec fn word_len(s: Seq<char>) -> nat
    decreases s.len(),
{
    if s.len() == 0 {
        0
    } else if s[0] == '\n' {
        0
    } else if is_ws(s[0]) {
        1
    } else {
        1 + word_len(s.skip(1))
    }
}

/// The word never outruns the text.
pub proof fn lemma_word_len_le(s: Seq<char>)
    ensures
        word_len(s) <= s.len(),
    decreases s.len(),
{
    if s.len() > 0 && s[0] != '\n' && !is_ws(s[0]) {
        lemma_word_len_le(s.skip(1));
    }
}

/// The executable word length from a position in a character vector.
pub fn word_len_from(chars: &Vec<char>, start: usize) -> (r: usize)
    requires
        start <= chars@.len(),
    ensures
        r == word_len(chars@.skip(start as int)),
        start + r <= chars@.len(),
    decreases chars@.len() - start,
{
    proof {
        lemma_word_len_le(chars@.skip(start as int));
    }
    if start == chars.len() {
        0
    } else {
        let c = chars[start];
        proof {
            assert(chars@.skip(start as int)[0] == c);
            assert(chars@.skip(start as int).skip(1) =~= chars@.skip(start as int + 1));
        }
        if c == '\n' {
            0
        } else if is_ws_exec(c) {
            1
        } else {
            1 + word_len_from(chars, start + 1)
        }
    }
}

/// Text alignment enumerator.
#[derive(Debug, Clone, Copy, PartialEq, Eq, Structural, Hash)]
pub enum Align {
    Left,
    Center,
    Right,
}

/// One styled run of text sharing a font, size, color and kerning.
#[derive(Debug, Clone, PartialEq)]
pub struct Span {
    /// The text content, one entry per character.
    pub text: Vec<char>,
    /// Size of the font, in units.
    pub font_size: i64,
    /// Optional custom line height, in units.
    pub line_height: Option<i64>,
    /// The font face used for rendering.
    pub font: Font,
    /// The text color.
    pub color: Color,
    /// Additional spacing between characters, in units.
    pub kerning: i64,
}

impl Span {
    /// Whether the span's font and metrics are within the accepted ranges.
    pub open spec fn wf(&self) -> bool {
        &&& self.font.wf()
        &&& 0 < self.font_size <= MAX_FONT_UNIT
        &&& -MAX_FONT_UNIT <= self.kerning <= MAX_FONT_UNIT
        &&& match self.line_height {
            Some(lh) => 0 <= lh <= SCALED_MAX,
            None => true,
        }
    }

    /// A new styled span.
    pub fn new(
        text: Vec<char>, font_size: i64, line_height: Option<i64>, font: Font,
        color: Color, kerning: i64,
    ) -> (r: Span)
        ensures
            r == (Span { text, font_size, line_height, font, color, kerning }),
    {
        Span { text, font_size, line_height, font, color, kerning }
    }

    /// The span's line height: the explicit override, or the font's default
    /// line size scaled to the span's size.
    pub open spec fn spec_line_height(&self) -> int {
        match self.line_height {
            Some(lh) => lh as int,
            None => spec_scale(
                self.font.new_line_size as int, self.font_size as int,
                self.font.units_per_em as int),
        }
    }

    /// The span's descent, scaled to its size.
    pub open spec fn spec_descent(&self) -> int {
        spec_scale(self.font.descent as int, self.font_size as int,
            self.font.units_per_em as int)
    }
}

/// The executable line height of a span.
fn line_height_of(span: &Span) -> (r: i64)
    requires
        span.wf(),
    ensures
        r == span.spec_line_height(),
        -SCALED_MAX <= r <= SCALED_MAX,
{
    match span.line_height {
        Some(lh) => lh,
        None => scale_metric(span.font.new_line_size, span.font_size, span.font.units_per_em),
    }
}

/// The executable scaled descent of a span.
fn descent_of(span: &Span) -> (r: i64)
    requires
        span.wf(),
    ensures
        r == span.spec_descent(),
        -SCALED_MAX <= r <= SCALED_MAX,
{
    scale_metric(span.font.descent, span.font_size, span.font.units_per_em)
}

/// One positioned character of a laid-out line.
#[derive(Debug, Clone, Copy, PartialEq)]
pub struct Character {
    /// The character itself.
    pub ch: char,
    /// The left edge of the glyph box, in units.
    pub x: i128,
    /// The top edge of the glyph box, in units.
    pub y: i128,
    /// The width of the glyph box, in units.
    pub w: i128,
    /// The height of the glyph box, in units.
    pub h: i128,
    /// The identity of the face the glyph comes from.
    pub font_id: u64,
    /// The color of the character.
    pub color: Color,
    /// The line height the character asks for, in units.
    pub line_height: i128,
    /// The advance width of the character, in units.
    pub advance: i128,
}

/// The mathematical value of one positioned character.
pub struct CharV {
    /// The character itself.
    pub ch: char,
    /// The left edge of the glyph box.
    pub x: int,
    /// The top edge of the glyph box.
    pub y: int,
    /// The width of the glyph box.
    pub w: int,
    /// The height of the glyph box.
    pub h: int,
    /// The identity of the face the glyph comes from.
    pub font_id: u64,
    /// The color of the character.
    pub color: Color,
    /// The line height the character asks for.
    pub line_height: int,
    /// The advance width of the character.
    pub advance: int,
}

impl View for Character {
    type V = CharV;

    open spec fn view(&self) -> CharV {
        CharV {
            ch: self.ch, x: self.x as int, y: self.y as int, w: self.w as int,
            h: self.h as int, font_id: self.font_id, color: self.color,
            line_height: self.line_height as int, advance: self.advance as int,
        }
    }
}

/// One laid-out line: its width, its height, and its characters in order.
#[derive(Debug, Clone, PartialEq)]
pub struct Line {
    /// The advance width of the line, in units.
    pub width: i128,
    /// The height of the line, in units.
    pub height: i128,
    /// The positioned characters of the line.
    pub chars: Vec<Character>,
}

/// The mathematical value of one laid-out line.
#[verifier::ext_equal]
pub struct LineV {
    /// The advance width of the line.
    pub width: int,
    /// The height of the line.
    pub height: int,
    /// The positioned characters of the line.
    pub chars: Seq<CharV>,
}

impl View for Line {
    type V = LineV;

    open spec fn view(&self) -> LineV {
        LineV {
            width: self.width as int,
            height: self.height as int,
            chars: self.chars@.map_values(|c: Character| c@),
        }
    }
}

/// The layout state while lines are built: the finished lines and the line
/// being filled.
#[verifier::ext_equal]
pub struct StateV {
    /// The finished lines.
    pub lines: Seq<LineV>,
    /// The line being filled.
    pub cur: LineV,
}

/// The sum of the heights of finished lines: the vertical pen position.
pub open spec fn sum_heights(lines: Seq<LineV>) -> int
    decreases lines.len(),
{
    if lines.len() == 0 {
        0
    } else {
        sum_heights(lines.drop_last()) + lines.last().height
    }
}

/// The empty layout state.
pub open spec fn st_empty() -> StateV {
    StateV { lines: Seq::empty(), cur: LineV { width: 0, height: 0, chars: Seq::empty() } }
}

/// Flushing the current line: every character of it drops by the line's
/// height, the line joins the finished ones, and a fresh line starts.
pub open spec fn st_flush(st: StateV) -> StateV {
    let moved = st.cur.chars.map_values(
        |c: CharV| CharV { ch: c.ch, x: c.x, y: c.y + st.cur.height, w: c.w, h: c.h,
            font_id: c.font_id, color: c.color, line_height: c.line_height,
            advance: c.advance });
    StateV {
        lines: st.lines.push(LineV { width: st.cur.width, height: st.cur.height,
            chars: moved }),
        cur: LineV { width: 0, height: 0, chars: Seq::empty() },
    }
}

/// Placing one glyph on the current line: the character sits at the pen,
/// its vertical position is the height of all finished lines corrected by
/// its bearings and the span's descent, the pen advances by the glyph's
/// advance and the span's kerning, and the line grows to the span's line
/// height if it was lower.
pub open spec fn st_place(st: StateV, span: Span, c: char) -> StateV {
    let g = spec_scaled_glyph(span.font, c, span.font_size as int);
    let lh = span.spec_line_height();
    let y = sum_heights(st.lines) - g.ymin - g.height + span.spec_descent();
    let placed = CharV {
        ch: c, x: st.cur.width + g.xmin, y: y, w: g.width as int, h: g.height as int,
        font_id: span.font.id, color: span.color, line_height: lh,
        advance: g.advance as int,
    };
    StateV {
        lines: st.lines,
        cur: LineV {
            width: st.cur.width + g.advance + span.kerning,
            height: if st.cur.height >= lh { st.cur.height } else { lh },
            chars: st.cur.chars.push(placed),
        },
    }
}

/// The width one word would take: the sum of its scaled advances, each
/// with the span's kerning.
pub open spec fn spec_word_width(span: Span, word: Seq<char>) -> int
    decreases word.len(),
{
    if word.len() == 0 {
        0
    } else {
        spec_scaled_glyph(span.font, word[0], span.font_size as int).advance
            + span.kerning + spec_word_width(span, word.skip(1))
    }
}

/// A flush if the width is bounded, the addition would overflow it, and
/// the current line is not empty.
pub open spec fn st_maybe_wrap(st: StateV, width: Option<i64>, add: int) -> StateV {
    match width {
        Some(w) => if st.cur.width + add > w && st.cur.chars.len() > 0 {
            st_flush(st)
        } else {
            st
        },
        None => st,
    }
}

/// Placing the glyphs of one word, each behind its own wrap check.
pub open spec fn st_word_glyphs(st: StateV, span: Span, word: Seq<char>, width: Option<i64>)
    -> StateV
    decreases word.len(),
{
    if word.len() == 0 {
        st
    } else {
        let g = spec_scaled_glyph(span.font, word[0], span.font_size as int);
        let st1 = st_maybe_wrap(st, width, g.advance as int);
        let st2 = st_place(st1, span, word[0]);
        st_word_glyphs(st2, span, word.skip(1), width)
    }
}

/// Processing one word: a wrap check against the whole word first, then
/// its glyphs one by one.
pub open spec fn st_word(st: StateV, span: Span, word: Seq<char>, width: Option<i64>)
    -> StateV {
    let st1 = st_maybe_wrap(st, width, spec_word_width(span, word));
    st_word_glyphs(st1, span, word, width)
}

/// Ending a raw line: an empty line still takes the span's line height,
/// then the line is flushed.
pub open spec fn st_break(st: StateV, span: Span) -> StateV {
    let lh = span.spec_line_height();
    let st1 = if st.cur.chars.len() == 0 && st.cur.height < lh {
        StateV { lines: st.lines, cur: LineV { width: st.cur.width, height: lh,
            chars: st.cur.chars } }
    } else {
        st
    };
    st_flush(st1)
}

/// Scanning a span's text from a suffix: words are placed with their wrap
/// checks, an explicit newline ends the raw line, and the span's end ends
/// its last raw line.
pub open spec fn st_scan(st: StateV, span: Span, s: Seq<char>, width: Option<i64>) -> StateV
    decreases s.len(),
    via st_scan_decreases
{
    if s.len() == 0 {
        st_break(st, span)
    } else if s[0] == '\n' {
        st_scan(st_break(st, span), span, s.skip(1), width)
    } else {
        let wl = word_len(s) as int;
        st_scan(st_word(st, span, s.take(wl), width), span, s.skip(wl), width)
    }
}

/// A word at a non-newline head has at least one character.
pub proof fn lemma_word_len_pos(s: Seq<char>)
    requires
        s.len() > 0,
        s[0] != '\n',
    ensures
        word_len(s) >= 1,
{
}

#[via_fn]
proof fn st_scan_decreases(st: StateV, span: Span, s: Seq<char>, width: Option<i64>) {
    if s.len() > 0 && s[0] != '\n' {
        lemma_word_len_pos(s);
        lemma_word_len_le(s);
    }
}

/// Laying out the spans in order, each scanned from its full text.
pub open spec fn st_spans(st: StateV, spans: Seq<Span>, width: Option<i64>) -> StateV
    decreases spans.len(),
{
    if spans.len() == 0 {
        st
    } else {
        st_spans(st_scan(st, spans[0], spans[0].text@, width), spans.skip(1), width)
    }
}

/// A generous bound on the coordinates of a character still on the
/// current line.
pub const C_CUR: i128 = 0x400000000000000000000000000;

/// A generous bound on the coordinates of a character of a finished line.
pub const C_FROZEN: i128 = 0x800000000000000000000000000;

/// Bounds every placed character obeys in its size fields.
pub open spec fn char_core_wf(c: CharV) -> bool {
    &&& -SCALED_MAX <= c.w <= SCALED_MAX
    &&& -SCALED_MAX <= c.h <= SCALED_MAX
    &&& 0 <= c.line_height <= SCALED_MAX
    &&& -CHAR_STEP <= c.advance <= CHAR_STEP
}

/// Bounds a character on the current line obeys.
pub open spec fn char_cur_wf(c: CharV) -> bool {
    &&& char_core_wf(c)
    &&& -C_CUR <= c.x <= C_CUR
    &&& -C_CUR <= c.y <= C_CUR
}

/// Bounds a character of a finished line obeys.
pub open spec fn char_frozen_wf(c: CharV) -> bool {
    &&& char_core_wf(c)
    &&& -C_FROZEN <= c.x <= C_FROZEN
    &&& -C_FROZEN <= c.y <= C_FROZEN
}

/// Bounds a finished line obeys.
pub open spec fn line_bounds_wf(l: LineV) -> bool {
    &&& -(l.chars.len() as int) * (CHAR_STEP as int) <= l.width
        <= (l.chars.len() as int) * (CHAR_STEP as int)
    &&& 0 <= l.height <= SCALED_MAX
    &&& forall|i: int| 0 <= i < l.chars.len() ==> char_frozen_wf(#[trigger] l.chars[i])
}

/// The executable layout builder: the finished lines, the metrics of the
/// line being filled, and the cached total height of the finished lines.
pub struct Builder {
    /// The finished lines.
    pub lines: Vec<Line>,
    /// The advance width of the line being filled.
    pub cur_width: i128,
    /// The height of the line being filled.
    pub cur_height: i128,
    /// The characters of the line being filled.
    pub cur_chars: Vec<Character>,
    /// The cached sum of the finished lines' heights.
    pub total_height: i128,
    /// The bounded width lines wrap against, if any.
    pub width_hint: Option<i64>,
}

impl View for Builder {
    type V = StateV;

    open spec fn view(&self) -> StateV {
        StateV {
            lines: self.lines@.map_values(|l: Line| l@),
            cur: LineV {
                width: self.cur_width as int,
                height: self.cur_height as int,
                chars: self.cur_chars@.map_values(|c: Character| c@),
            },
        }
    }
}

impl Builder {
    /// The builder invariant: all coordinates within their generous
    /// bounds, and the cached height equal to the finished lines' sum.
    pub open spec fn wf(&self) -> bool {
        &&& -(self.cur_chars@.len() as int) * (CHAR_STEP as int) <= self.cur_width
            <= (self.cur_chars@.len() as int) * (CHAR_STEP as int)
        &&& 0 <= self.cur_height <= SCALED_MAX
        &&& forall|i: int| 0 <= i < self.cur_chars@.len()
            ==> char_cur_wf((#[trigger] self.cur_chars@[i])@)
        &&& forall|i: int| 0 <= i < self.lines@.len()
            ==> line_bounds_wf((#[trigger] self.lines@[i])@)
        &&& self.total_height == sum_heights(self@.lines)
        &&& 0 <= self.total_height <= (self.lines@.len() as int) * (SCALED_MAX as int)
    }

    /// The empty builder.
    pub fn new(width: Option<i64>) -> (r: Builder)
        ensures
            r.wf(),
            r@ == st_empty(),
            r.width_hint == width,
    {
        let r = Builder {
            lines: Vec::new(), cur_width: 0, cur_height: 0, cur_chars: Vec::new(),
            total_height: 0, width_hint: width,
        };
        proof {
            assert(r@.lines =~= st_empty().lines);
            assert(r@.cur.chars =~= st_empty().cur.chars);
        }
        r
    }

    /// Vector lengths stay within the machine word, so relative bounds
    /// give absolute ones.
    proof fn lemma_abs_bounds(&self)
        requires
            self.wf(),
            self.cur_chars@.len() <= 0xFFFF_FFFF_FFFF_FFFF,
            self.lines@.len() <= 0xFFFF_FFFF_FFFF_FFFF,
        ensures
            -C_CUR <= self.cur_width <= C_CUR,
            0 <= self.total_height <= C_CUR,
    {
        let n = self.cur_chars@.len() as int;
        assert(n * (CHAR_STEP as int) <= 0x1_0000_0000_0000_0000 * (CHAR_STEP as int)) by {
            vstd::arithmetic::mul::lemma_mul_inequality(
                n, 0x1_0000_0000_0000_0000, CHAR_STEP as int);
        }
        assert((-n) * (CHAR_STEP as int) >= -(0x1_0000_0000_0000_0000 * (
        CHAR_STEP as int))) by (nonlinear_arith)
            requires 0 <= n <= 0x1_0000_0000_0000_0000;
        assert(-(n * (CHAR_STEP as int)) == (-n) * (CHAR_STEP as int)) by (nonlinear_arith);
        let m = self.lines@.len() as int;
        assert(m * (SCALED_MAX as int) <= 0x1_0000_0000_0000_0000 * (SCALED_MAX as int)) by {
            vstd::arithmetic::mul::lemma_mul_inequality(
                m, 0x1_0000_0000_0000_0000, SCALED_MAX as int);
        }
    }

    /// The machine bound on the builder's vector lengths.
    fn observe_lens(&self)
        ensures
            self.cur_chars@.len() <= 0xFFFF_FFFF_FFFF_FFFF,
            self.lines@.len() <= 0xFFFF_FFFF_FFFF_FFFF,
    {
        let n = self.cur_chars.len();
        let m = self.lines.len();
    }

    /// Flush the current line into the finished ones.
    fn flush(&mut self)
        requires
            old(self).wf(),
        ensures
            final(self).wf(),
            final(self)@ == st_flush(old(self)@),
            final(self).width_hint == old(self).width_hint,
    {
        self.observe_lens();
        proof {
            self.lemma_abs_bounds();
        }
        let mut i: usize = 0;
        while i < self.cur_chars.len()
            invariant
                i <= self.cur_chars@.len(),
                self.cur_chars@.len() == old(self).cur_chars@.len(),
                self.lines == old(self).lines,
                self.cur_width == old(self).cur_width,
                self.cur_height == old(self).cur_height,
                self.total_height == old(self).total_height,
                self.width_hint == old(self).width_hint,
                0 <= self.cur_height <= SCALED_MAX,
                forall|j: int| 0 <= j < i ==> (#[trigger] self.cur_chars@[j])@
                    == spec_bump_v(old(self).cur_chars@[j]@, old(self)@.cur.height),
                forall|j: int| i <= j < self.cur_chars@.len()
                    ==> #[trigger] self.cur_chars@[j] == old(self).cur_chars@[j],
                forall|j: int| 0 <= j < self.cur_chars@.len()
                    ==> char_cur_wf((#[trigger] old(self).cur_chars@[j])@),
            decreases self.cur_chars.len() - i,
        {
            let y = self.cur_chars[i].y;
            self.cur_chars[i].y = y + self.cur_height;
            i += 1;
        }
        let mut chars: Vec<Character> = Vec::new();
        core::mem::swap(&mut chars, &mut self.cur_chars);
        let line = Line { width: self.cur_width, height: self.cur_height, chars };
        proof {
            assert(line@.chars =~= old(self)@.cur.chars.map_values(
                |c: CharV| spec_bump_v(c, old(self)@.cur.height)));
        }
        self.lines.push(line);
        self.total_height = self.total_height + self.cur_height;
        self.cur_width = 0;
        self.cur_height = 0;
        proof {
            let stf = st_flush(old(self)@);
            assert(line@ =~~= stf.lines.last());
            assert(self@.lines =~~= stf.lines);
            assert(self@.cur.chars =~= stf.cur.chars);
            assert(self@ =~~= stf);
            assert(self@.lines.drop_last() =~= old(self)@.lines);
            assert(self@.lines.last() == line@);
            let n = self.lines@.len() as int;
            assert(n * (SCALED_MAX as int) == (n - 1) * (SCALED_MAX as int)
                + SCALED_MAX as int) by {
                vstd::arithmetic::mul::lemma_mul_is_distributive_sub_other_way(
                    SCALED_MAX as int, n, 1);
            }
        }
    }

    /// Place one glyph of a span on the current line.
    fn place(&mut self, span: &Span, c: char)
        requires
            old(self).wf(),
            span.wf(),
        ensures
            final(self).wf(),
            final(self)@ == st_place(old(self)@, *span, c),
            final(self).width_hint == old(self).width_hint,
    {
        self.observe_lens();
        proof {
            self.lemma_abs_bounds();
        }
        let g = scaled_glyph(&span.font, c, span.font_size);
        let lh = line_height_of(span);
        let descent = descent_of(span);
        let y: i128 = self.total_height - (g.ymin as i128) - (g.height as i128)
            + (descent as i128);
        let placed = Character {
            ch: c,
            x: self.cur_width + (g.xmin as i128),
            y: y,
            w: g.width as i128,
            h: g.height as i128,
            font_id: span.font.id,
            color: span.color,
            line_height: lh as i128,
            advance: g.advance as i128,
        };
        self.cur_chars.push(placed);
        self.cur_width = self.cur_width + (g.advance as i128) + (span.kerning as i128);
        if self.cur_height < lh as i128 {
            self.cur_height = lh as i128;
        }
        proof {
            let stp = st_place(old(self)@, *span, c);
            assert(self@.cur.chars =~= stp.cur.chars);
            assert(self@.lines =~= stp.lines);
            let n = self.cur_chars@.len() as int;
            assert(n * (CHAR_STEP as int) == (n - 1) * (CHAR_STEP as int)
                + CHAR_STEP as int) by {
                vstd::arithmetic::mul::lemma_mul_is_distributive_sub_other_way(
                    CHAR_STEP as int, n, 1);
            }
        }
    }
}

impl Builder {
    /// Flush if the bounded width would be overflowed by `add` on a
    /// non-empty line.
    fn maybe_wrap(&mut self, width: Option<i64>, add: i128)
        requires
            old(self).wf(),
            -C_CUR <= add <= C_CUR,
        ensures
            final(self).wf(),
            final(self)@ == st_maybe_wrap(old(self)@, width, add as int),
            final(self).width_hint == old(self).width_hint,
    {
        self.observe_lens();
        proof {
            self.lemma_abs_bounds();
        }
        match width {
            Some(w) => {
                if self.cur_width + add > w as i128 && self.cur_chars.len() > 0 {
                    self.flush();
                }
            },
            None => {},
        }
    }

    /// End a raw line: an empty line still takes the span's line height.
    fn do_break(&mut self, span: &Span)
        requires
            old(self).wf(),
            span.wf(),
        ensures
            final(self).wf(),
            final(self)@ == st_break(old(self)@, *span),
            final(self).width_hint == old(self).width_hint,
    {
        let lh = line_height_of(span);
        if self.cur_chars.len() == 0 && self.cur_height < lh as i128 {
            self.cur_height = lh as i128;
            proof {
                assert(self@ =~~= (StateV { lines: old(self)@.lines,
                    cur: LineV { width: old(self)@.cur.width,
                        height: span.spec_line_height(),
                        chars: old(self)@.cur.chars } }));
            }
        }
        self.flush();
    }

    /// Place one word: the word-level wrap check, then its glyphs each
    /// behind their own check.
    fn do_word(&mut self, span: &Span, chars: &Vec<char>, start: usize, wl: usize)
        requires
            old(self).wf(),
            span.wf(),
            start + wl <= chars@.len(),
        ensures
            final(self).wf(),
            final(self)@ == st_word(old(self)@,
                *span, chars@.subrange(start as int, start as int + wl as int),
                old(self).width_hint),
            final(self).width_hint == old(self).width_hint,
    {
        let ghost word = chars@.subrange(start as int, start as int + wl as int);
        let n = chars.len();
        let width = self.width_hint;
        let ww = word_width_from(span, chars, start, wl);
        proof {
            vstd::arithmetic::mul::lemma_mul_inequality(
                wl as int, 0x1_0000_0000_0000_0000, CHAR_STEP as int);
            assert(-(wl as int * (CHAR_STEP as int)) == (-(wl as int)) * (
            CHAR_STEP as int)) by (nonlinear_arith);
            assert((-(wl as int)) * (CHAR_STEP as int)
                >= -(0x1_0000_0000_0000_0000 * (CHAR_STEP as int))) by (nonlinear_arith)
                requires 0 <= wl as int <= 0x1_0000_0000_0000_0000;
        }
        self.maybe_wrap(width, ww);
        let ghost st1 = self@;
        let mut k: usize = 0;
        proof {
            assert(word.skip(0) =~= word);
        }
        while k < wl
            invariant
                k <= wl,
                start + wl <= n,
                n == chars@.len(),
                word == chars@.subrange(start as int, start as int + wl as int),
                span.wf(),
                self.wf(),
                self.width_hint == width,
                st_word_glyphs(self@, *span, word.skip(k as int), width)
                    == st_word_glyphs(st1, *span, word, width),
            decreases wl - k,
        {
            let ghost pre = word.skip(k as int);
            let c = chars[start + k];
            proof {
                assert(pre[0] == c);
                assert(pre.skip(1) =~= word.skip(k as int + 1));
            }
            let g = scaled_glyph(&span.font, c, span.font_size);
            self.maybe_wrap(width, g.advance as i128);
            self.place(span, c);
            k += 1;
        }
        proof {
            assert(word.skip(wl as int) =~= Seq::<char>::empty());
        }
    }

    /// Scan one span's text, placing words and breaking lines.
    fn scan_span(&mut self, span: &Span)
        requires
            old(self).wf(),
            span.wf(),
        ensures
            final(self).wf(),
            final(self)@ == st_scan(old(self)@, *span, span.text@, old(self).width_hint),
            final(self).width_hint == old(self).width_hint,
    {
        let width = self.width_hint;
        let mut p: usize = 0;
        proof {
            assert(span.text@.skip(0) =~= span.text@);
        }
        while p < span.text.len()
            invariant
                p <= span.text@.len(),
                span.wf(),
                self.wf(),
                self.width_hint == width,
                st_scan(self@, *span, span.text@.skip(p as int), width)
                    == st_scan(old(self)@, *span, span.text@, width),
            decreases span.text@.len() - p,
        {
            let ghost pre = span.text@.skip(p as int);
            let c = span.text[p];
            proof {
                assert(pre[0] == c);
            }
            if c == '\n' {
                proof {
                    assert(pre.skip(1) =~= span.text@.skip(p as int + 1));
                }
                self.do_break(span);
                p += 1;
            } else {
                let wl = word_len_from(&span.text, p);
                proof {
                    lemma_word_len_pos(pre);
                    assert(pre.take(wl as int)
                        =~= span.text@.subrange(p as int, p as int + wl as int));
                    assert(pre.skip(wl as int) =~= span.text@.skip(p as int + wl as int));
                }
                self.do_word(span, &span.text, p, wl);
                p += wl;
            }
        }
        proof {
            assert(span.text@.skip(span.text@.len() as int) =~= Seq::<char>::empty());
        }
        self.do_break(span);
    }
}

/// The width one word takes, computed from a position in the text.
fn word_width_from(span: &Span, chars: &Vec<char>, start: usize, wl: usize) -> (r: i128)
    requires
        span.wf(),
        start + wl <= chars@.len(),
    ensures
        r == spec_word_width(*span, chars@.subrange(start as int, start as int + wl as int)),
        -(wl as int) * (CHAR_STEP as int) <= r <= (wl as int) * (CHAR_STEP as int),
    decreases wl,
{
    let ghost word = chars@.subrange(start as int, start as int + wl as int);
    let n = chars.len();
    if wl == 0 {
        proof {
            assert(word =~= Seq::<char>::empty());
        }
        0
    } else {
        let c = chars[start];
        proof {
            assert(word[0] == c);
            assert(word.skip(1) =~= chars@.subrange(start as int + 1,
                start as int + 1 + (wl - 1) as int));
        }
        let g = scaled_glyph(&span.font, c, span.font_size);
        let rest = word_width_from(span, chars, start + 1, wl - 1);
        proof {
            vstd::arithmetic::mul::lemma_mul_is_distributive_sub_other_way(
                CHAR_STEP as int, wl as int, 1);
            vstd::arithmetic::mul::lemma_mul_inequality(
                (wl - 1) as int, 0x1_0000_0000_0000_0000, CHAR_STEP as int);
            assert((-((wl - 1) as int)) * (CHAR_STEP as int)
                >= -(0x1_0000_0000_0000_0000 * (CHAR_STEP as int))) by (nonlinear_arith)
                requires 0 <= (wl - 1) as int <= 0x1_0000_0000_0000_0000;
            assert(-(((wl - 1) as int) * (CHAR_STEP as int))
                == (-((wl - 1) as int)) * (CHAR_STEP as int)) by (nonlinear_arith);
        }
        (g.advance as i128) + (span.kerning as i128) + rest
    }
}

/// A generous bound on every coordinate of an aligned layout.
pub const C_ALN: i128 = 0x1000000000000000000000000000;

/// A generous bound on every coordinate of a finished layout.
pub const C_OUT: i128 = 0x4000000000000000000000000000;

/// # Text
///
/// A text container composed of one or more [`Span`]s, with an optional
/// maximum width, an alignment, an optional cursor and an optional
/// maximum line count.
#[derive(Debug, Clone, PartialEq)]
pub struct Text {
    /// The styled segments that make up the text content.
    pub spans: Vec<Span>,
    /// Optional maximum width, in units.
    pub width: Option<i64>,
    /// Horizontal alignment of the text.
    pub align: Align,
    /// Optional cursor position for editable or interactive text.
    pub cursor: Option<Cursor>,
    /// Optional maximum number of rendered lines.
    pub max_lines: Option<u32>,
}

impl Text {
    /// Whether every span of the text is well formed.
    pub open spec fn wf(&self) -> bool {
        forall|i: int| 0 <= i < self.spans@.len() ==> (#[trigger] self.spans@[i]).wf()
    }

    /// A new text from its parts, with no cursor.
    pub fn new(
        spans: Vec<Span>, width: Option<i64>, align: Align, max_lines: Option<u32>,
    ) -> (r: Text)
        ensures
            r == (Text { spans, width, align, cursor: None, max_lines }),
    {
        Text { spans, width, align, cursor: None, max_lines }
    }
}

/// The horizontal shift alignment gives a line of width `lw`: none for
/// left alignment or an unbounded text, half the slack for centering,
/// all of it for right alignment.
pub open spec fn spec_align_offset(align: Align, width: Option<i64>, lw: int) -> int {
    match align {
        Align::Left => 0,
        Align::Center => match width {
            Some(w) => crate::num::shalf(w - lw),
            None => 0,
        },
        Align::Right => match width {
            Some(w) => w - lw,
            None => 0,
        },
    }
}

/// A line shifted by its alignment offset: every character moves by it,
/// and so does the line's width.
pub open spec fn spec_align_line(align: Align, width: Option<i64>, l: LineV) -> LineV {
    let off = spec_align_offset(align, width, l.width);
    LineV {
        width: l.width + off,
        height: l.height,
        chars: l.chars.map_values(
            |c: CharV| CharV { ch: c.ch, x: c.x + off, y: c.y, w: c.w, h: c.h,
                font_id: c.font_id, color: c.color, line_height: c.line_height,
                advance: c.advance }),
    }
}

/// All lines shifted by their alignment offsets.
pub open spec fn spec_aligned(align: Align, width: Option<i64>, lines: Seq<LineV>)
    -> Seq<LineV> {
    lines.map_values(|l: LineV| spec_align_line(align, width, l))
}

/// A line with ellipsis dots appended: each dot sits after the previous
/// pen position, at the vertical position of the kept lines' bottom
/// corrected by its bearings and the first span's descent.
pub open spec fn spec_push_dots(l: LineV, span: Span, y: int, start_x: int, k: nat) -> LineV
    decreases k,
{
    if k == 0 {
        l
    } else {
        let g = spec_scaled_glyph(span.font, '.', span.font_size as int);
        let lh = span.spec_line_height();
        let aw = g.advance + span.kerning;
        let c = CharV {
            ch: '.', x: start_x + g.xmin, y: y - g.ymin - g.height + span.spec_descent(),
            w: g.width as int, h: g.height as int, font_id: span.font.id,
            color: span.color, line_height: lh, advance: aw,
        };
        let l2 = LineV {
            width: l.width + aw,
            height: if l.height >= lh { l.height } else { lh },
            chars: l.chars.push(c),
        };
        spec_push_dots(l2, span, y, start_x + aw, (k - 1) as nat)
    }
}

/// The lines kept under a maximum line count: the first `max_lines` of
/// them, and if any were cut, the last kept line loses up to its last
/// three characters and gains a three-dot ellipsis in the first span's
/// metrics.
pub open spec fn spec_truncate(t: Text, lines: Seq<LineV>) -> Seq<LineV> {
    match t.max_lines {
        None => lines,
        Some(m) => {
            let keep = if m as int <= lines.len() { m as int } else { lines.len() as int };
            let kept = lines.take(keep);
            if lines.len() > m as int && kept.len() > 0 && t.spans@.len() > 0 {
                let last0 = kept.last();
                let cut = if last0.chars.len() >= 3 { last0.chars.len() - 3 } else { 0 };
                let dropped = LineV { width: last0.width, height: last0.height,
                    chars: last0.chars.take(cut as int) };
                let y = sum_heights(kept);
                let start_x = if dropped.chars.len() > 0 {
                    dropped.chars.last().x + dropped.chars.last().advance
                } else {
                    0
                };
                kept.update(keep - 1, spec_push_dots(dropped, t.spans@[0], y, start_x, 3))
            } else {
                kept
            }
        },
    }
}

/// The laid-out lines of a text: the spans scanned in order into wrapped
/// raw lines, aligned, and truncated to the maximum line count.
pub open spec fn spec_layout(t: Text) -> Seq<LineV> {
    spec_truncate(t, spec_aligned(t.align, t.width,
        st_spans(st_empty(), t.spans@, t.width).lines))
}

/// Bounds a laid-out line obeys within a coordinate box of half side `b`.
pub open spec fn line_box_wf(l: LineV, b: int) -> bool {
    &&& -b <= l.width <= b
    &&& 0 <= l.height <= SCALED_MAX
    &&& forall|i: int| 0 <= i < l.chars.len() ==> {
        &&& char_core_wf(#[trigger] l.chars[i])
        &&& -b <= l.chars[i].x <= b
        &&& -b <= l.chars[i].y <= b
    }
}

/// Bounds every line of an aligned layout obeys.
pub open spec fn aln_line_wf(l: LineV) -> bool {
    line_box_wf(l, C_ALN as int)
}

/// Bounds every line of a finished layout obeys.
pub open spec fn out_line_wf(l: LineV) -> bool {
    line_box_wf(l, C_OUT as int)
}

/// A character dropped by a line height, as a value.
pub open spec fn spec_bump_v(c: CharV, dh: int) -> CharV {
    CharV { ch: c.ch, x: c.x, y: c.y + dh, w: c.w, h: c.h, font_id: c.font_id,
        color: c.color, line_height: c.line_height, advance: c.advance }
}

/// Alignment law: aligning a line moves every one of its characters by
/// exactly the alignment offset — zero for left alignment, half the
/// remaining width for centering, all of it for right alignment — and the
/// line's width by the same amount.
pub proof fn lemma_alignment_shift(align: Align, width: Option<i64>, l: LineV, i: int)
    requires
        0 <= i < l.chars.len(),
    ensures
        spec_align_line(align, width, l).chars[i].x
            == l.chars[i].x + spec_align_offset(align, width, l.width),
        spec_align_line(align, width, l).width
            == l.width + spec_align_offset(align, width, l.width),
        align is Left ==> spec_align_offset(align, width, l.width) == 0,
        (align is Center && width is Some) ==> spec_align_offset(align, width, l.width)
            == crate::num::shalf(width->0 - l.width),
        (align is Right && width is Some) ==> spec_align_offset(align, width, l.width)
            == width->0 - l.width,
{
}

/// Without a line cap the finished layout is exactly the aligned raw
/// lines, so the alignment law speaks of every line a caller receives:
/// each is its raw line shifted by the alignment offset.
pub proof fn lemma_layout_unclipped(t: Text)
    requires
        t.max_lines is None,
    ensures
        spec_layout(t) == spec_aligned(t.align, t.width,
            st_spans(st_empty(), t.spans@, t.width).lines),
        forall|i: int| 0 <= i < spec_layout(t).len()
            ==> #[trigger] spec_layout(t)[i] == spec_align_line(t.align, t.width,
                st_spans(st_empty(), t.spans@, t.width).lines[i]),
{
}

/// Whether a line respects the bounded width: its width stays within the
/// bound, unless it holds a single character that alone exceeds it.
pub open spec fn wrap_ok_line(l: LineV, w: int) -> bool {
    l.width <= w || l.chars.len() == 1
}

/// Whether a layout state respects the bounded width in every finished
/// line and in the line being filled.
pub open spec fn wrap_ok_state(st: StateV, w: int) -> bool {
    &&& forall|i: int| 0 <= i < st.lines.len() ==> wrap_ok_line(#[trigger] st.lines[i], w)
    &&& wrap_ok_line(st.cur, w)
}

/// Whether every glyph of a span advances the pen forward.
pub open spec fn span_advances_forward(span: Span) -> bool {
    forall|c: char| #[trigger] spec_scaled_glyph(span.font, c,
        span.font_size as int).advance >= 0
}

/// Flushing keeps the wrap discipline.
proof fn lemma_wrap_flush(st: StateV, w: int)
    requires
        wrap_ok_state(st, w),
        0 <= w <= 0x7FFF_FFFF_FFFF_FFFF,
    ensures
        wrap_ok_state(st_flush(st), w),
{
    let stf = st_flush(st);
    assert(stf.lines.last().width == st.cur.width);
    assert(stf.lines.last().chars.len() == st.cur.chars.len());
    assert forall|i: int| 0 <= i < stf.lines.len()
        implies wrap_ok_line(#[trigger] stf.lines[i], w) by {
        if i < st.lines.len() {
            assert(stf.lines[i] == st.lines[i]);
        }
    }
}

/// One wrap-checked glyph placement keeps the wrap discipline.
proof fn lemma_wrap_step(st: StateV, span: Span, c: char, w: int)
    requires
        wrap_ok_state(st, w),
        0 <= w <= 0x7FFF_FFFF_FFFF_FFFF,
        span.kerning == 0,
        span_advances_forward(span),
    ensures
        wrap_ok_state(st_place(st_maybe_wrap(st, Some(w as i64), spec_scaled_glyph(
            span.font, c, span.font_size as int).advance as int), span, c), w),
    decreases 0int,
{
    let adv = spec_scaled_glyph(span.font, c, span.font_size as int).advance as int;
    assert(adv >= 0);
    let st1 = st_maybe_wrap(st, Some(w as i64), adv);
    if st.cur.width + adv > w && st.cur.chars.len() > 0 {
        lemma_wrap_flush(st, w);
        assert(st1 == st_flush(st));
        assert(st1.cur.chars.len() == 0 && st1.cur.width == 0);
    } else {
        assert(st1 == st);
    }
    let st2 = st_place(st1, span, c);
    assert(st2.cur.width == st1.cur.width + adv);
    assert(st2.cur.chars.len() == st1.cur.chars.len() + 1);
    if st1.cur.chars.len() == 0 {
        assert(st2.cur.chars.len() == 1);
    } else {
        assert(st1.cur.width + adv <= w);
    }
}

/// Every glyph of a word keeps the wrap discipline.
proof fn lemma_wrap_word_glyphs(st: StateV, span: Span, word: Seq<char>, w: int)
    requires
        wrap_ok_state(st, w),
        0 <= w <= 0x7FFF_FFFF_FFFF_FFFF,
        span.kerning == 0,
        span_advances_forward(span),
    ensures
        wrap_ok_state(st_word_glyphs(st, span, word, Some(w as i64)), w),
    decreases word.len(),
{
    if word.len() > 0 {
        let adv = spec_scaled_glyph(span.font, word[0], span.font_size as int).advance as int;
        let st1 = st_maybe_wrap(st, Some(w as i64), adv);
        let st2 = st_place(st1, span, word[0]);
        lemma_wrap_step(st, span, word[0], w);
        lemma_wrap_word_glyphs(st2, span, word.skip(1), w);
    }
}

/// A word keeps the wrap discipline.
proof fn lemma_wrap_word(st: StateV, span: Span, word: Seq<char>, w: int)
    requires
        wrap_ok_state(st, w),
        0 <= w <= 0x7FFF_FFFF_FFFF_FFFF,
        span.kerning == 0,
        span_advances_forward(span),
    ensures
        wrap_ok_state(st_word(st, span, word, Some(w as i64)), w),
{
    let ww = spec_word_width(span, word);
    let st1 = st_maybe_wrap(st, Some(w as i64), ww);
    if st.cur.width + ww > w && st.cur.chars.len() > 0 {
        lemma_wrap_flush(st, w);
    }
    lemma_wrap_word_glyphs(st1, span, word, w);
}

/// Scanning a span keeps the wrap discipline.
proof fn lemma_wrap_scan(st: StateV, span: Span, s: Seq<char>, w: int)
    requires
        wrap_ok_state(st, w),
        0 <= w <= 0x7FFF_FFFF_FFFF_FFFF,
        span.kerning == 0,
        span_advances_forward(span),
    ensures
        wrap_ok_state(st_scan(st, span, s, Some(w as i64)), w),
    decreases s.len(),
{
    let lh = span.spec_line_height();
    if s.len() == 0 {
        lemma_wrap_flush(if st.cur.chars.len() == 0 && st.cur.height < lh {
            StateV { lines: st.lines, cur: LineV { width: st.cur.width,
                height: lh, chars: st.cur.chars } }
        } else {
            st
        }, w);
    } else if s[0] == '\n' {
        lemma_wrap_flush(if st.cur.chars.len() == 0 && st.cur.height < lh {
            StateV { lines: st.lines, cur: LineV { width: st.cur.width,
                height: lh, chars: st.cur.chars } }
        } else {
            st
        }, w);
        lemma_wrap_scan(st_break(st, span), span, s.skip(1), w);
    } else {
        lemma_word_len_pos(s);
        lemma_word_len_le(s);
        let wl = word_len(s) as int;
        lemma_wrap_word(st, span, s.take(wl), w);
        lemma_wrap_scan(st_word(st, span, s.take(wl), Some(w as i64)), span,
            s.skip(wl), w);
    }
}

/// Wrapping law: when a text has a nonnegative maximum width, zero
/// kerning, and fonts whose glyphs never advance the pen backward, every
/// raw laid-out line (before alignment) stays within the maximum width,
/// unless it holds a single character that alone exceeds it. A word is
/// appended to a line exactly when the line's width plus the word's width
/// stays within the maximum.
pub proof fn lemma_wrapping(t: Text, w: int)
    requires
        t.width == Some(w as i64),
        0 <= w <= 0x7FFF_FFFF_FFFF_FFFF,
        forall|i: int| 0 <= i < t.spans@.len()
            ==> (#[trigger] t.spans@[i]).kerning == 0,
        forall|i: int| 0 <= i < t.spans@.len()
            ==> span_advances_forward(#[trigger] t.spans@[i]),
    ensures
        forall|i: int| 0 <= i < st_spans(st_empty(), t.spans@, t.width).lines.len()
            ==> wrap_ok_line(#[trigger] st_spans(st_empty(), t.spans@, t.width).lines[i], w),
{
    lemma_wrap_spans(st_empty(), t.spans@, w);
}

/// Every span in turn keeps the wrap discipline.
proof fn lemma_wrap_spans(st: StateV, spans: Seq<Span>, w: int)
    requires
        wrap_ok_state(st, w),
        0 <= w <= 0x7FFF_FFFF_FFFF_FFFF,
        forall|i: int| 0 <= i < spans.len() ==> (#[trigger] spans[i]).kerning == 0,
        forall|i: int| 0 <= i < spans.len()
            ==> span_advances_forward(#[trigger] spans[i]),
    ensures
        wrap_ok_state(st_spans(st, spans, Some(w as i64)), w),
    decreases spans.len(),
{
    if spans.len() > 0 {
        lemma_wrap_scan(st, spans[0], spans[0].text@, w);
        lemma_wrap_spans(st_scan(st, spans[0], spans[0].text@, Some(w as i64)),
            spans.skip(1), w);
    }
}

/// Layout is deterministic: any two results that lay the same text out
/// are identical, line for line and character for character.
pub proof fn lemma_layout_idempotent(t: Text, r1: Seq<Line>, r2: Seq<Line>)
    requires
        r1.map_values(|l: Line| l@) == spec_layout(t),
        r2.map_values(|l: Line| l@) == spec_layout(t),
    ensures
        r1.len() == r2.len(),
        forall|i: int| 0 <= i < r1.len() ==> {
            &&& (#[trigger] r1[i]).width == r2[i].width
            &&& r1[i].height == r2[i].height
            &&& r1[i].chars@ == r2[i].chars@
        },
{
    assert(r1.map_values(|l: Line| l@).len() == r1.len());
    assert(r2.map_values(|l: Line| l@).len() == r2.len());
    assert forall|i: int| 0 <= i < r1.len() implies {
        &&& (#[trigger] r1[i]).width == r2[i].width
        &&& r1[i].height == r2[i].height
        &&& r1[i].chars@ == r2[i].chars@
    } by {
        assert(r1.map_values(|l: Line| l@)[i] == r1[i]@);
        assert(r2.map_values(|l: Line| l@)[i] == r2[i]@);
        lemma_line_view_injective(r1[i], r2[i]);
    }
}

/// Equal line values come only from lines with equal fields.
proof fn lemma_line_view_injective(a: Line, b: Line)
    requires
        a@ == b@,
    ensures
        a.width == b.width,
        a.height == b.height,
        a.chars@ == b.chars@,
{
    assert(a.chars@.map_values(|c: Character| c@).len() == a.chars@.len());
    assert(b.chars@.map_values(|c: Character| c@).len() == b.chars@.len());
    assert forall|j: int| 0 <= j < a.chars@.len()
        implies a.chars@[j] == b.chars@[j] by {
        assert(a.chars@.map_values(|c: Character| c@)[j] == a.chars@[j]@);
        assert(b.chars@.map_values(|c: Character| c@)[j] == b.chars@[j]@);
        assert(a.chars@[j]@ == b.chars@[j]@);
        let x = a.chars@[j];
        let y = b.chars@[j];
        assert(x.x as int == y.x as int && x.y as int == y.y as int
            && x.w as int == y.w as int && x.h as int == y.h as int
            && x.line_height as int == y.line_height as int
            && x.advance as int == y.advance as int);
    }
    assert(a.chars@ =~= b.chars@);
}

/// The measured size of laid-out lines: the widest line and the summed
/// heights.
pub open spec fn spec_size_of(lines: Seq<LineV>) -> (int, int)
    decreases lines.len(),
{
    if lines.len() == 0 {
        (0, 0)
    } else {
        let (w, h) = spec_size_of(lines.drop_last());
        (if w >= lines.last().width { w } else { lines.last().width },
            h + lines.last().height)
    }
}

impl Text {
    /// The laid-out lines of the text: its spans scanned into wrapped raw
    /// lines, aligned, and truncated to the maximum line count. The result
    /// is a function of the text and its fonts alone, so laying an
    /// unchanged text out twice gives identical lines.
    pub fn lines(&self) -> (r: Vec<Line>)
        requires
            self.wf(),
        ensures
            r@.map_values(|l: Line| l@) == spec_layout(*self),
            forall|i: int| 0 <= i < r@.len() ==> out_line_wf((#[trigger] r@[i])@),
    {
        let b = build_raw(self);
        let mut ls = b.lines;
        proof {
            assert(ls@.map_values(|l: Line| l@)
                == st_spans(st_empty(), self.spans@, self.width).lines);
        }
        align_pass(&mut ls, self.align, self.width);
        truncate_pass(self, &mut ls);
        ls
    }

    /// The measured size of the text: the width of its widest laid-out
    /// line and the sum of its lines' heights, consistent with `lines`.
    pub fn size(&self) -> (r: (i128, i128))
        requires
            self.wf(),
        ensures
            (r.0 as int, r.1 as int) == spec_size_of(spec_layout(*self)),
    {
        let ls = self.lines();
        let ghost lv = ls@.map_values(|l: Line| l@);
        let mut w: i128 = 0;
        let mut h: i128 = 0;
        let mut i: usize = 0;
        proof {
            assert(lv.take(0) =~= Seq::<LineV>::empty());
        }
        while i < ls.len()
            invariant
                i <= ls@.len(),
                lv == ls@.map_values(|l: Line| l@),
                forall|j: int| 0 <= j < ls@.len()
                    ==> out_line_wf((#[trigger] ls@[j])@),
                (w as int, h as int) == spec_size_of(lv.take(i as int)),
                -C_OUT <= w <= C_OUT,
                0 <= h <= (i as int) * (SCALED_MAX as int),
            decreases ls@.len() - i,
        {
            proof {
                assert(lv.take(i as int + 1).drop_last() =~= lv.take(i as int));
                assert(lv.take(i as int + 1).last() == (ls@[i as int])@);
                vstd::arithmetic::mul::lemma_mul_is_distributive_add_other_way(
                    SCALED_MAX as int, i as int, 1);
            }
            if ls[i].width > w {
                w = ls[i].width;
            }
            h = h + ls[i].height;
            i += 1;
        }
        proof {
            assert(lv.take(lv.len() as int) =~= lv);
            vstd::arithmetic::mul::lemma_mul_inequality(
                ls@.len() as int, 0x1_0000_0000_0000_0000, SCALED_MAX as int);
        }
        (w, h)
    }
}

/// The position of a flat cursor index within one line: at a character,
/// its left edge and its line-height times the line number; just past the
/// last character, the line's width and height times the line number.
pub open spec fn spec_cursor_pos_line(l: LineV, cursor: int, i: int) -> Option<(int, int)> {
    if 0 <= cursor < l.chars.len() {
        Some((l.chars[cursor].x, i * l.chars[cursor].line_height))
    } else if cursor == l.chars.len() {
        Some((l.width, i * l.height))
    } else {
        None
    }
}

/// The position of a flat cursor index over the lines from line `i`.
pub open spec fn spec_cursor_pos(lines: Seq<LineV>, cursor: int, i: int) -> Option<(int, int)>
    decreases lines.len() - i,
{
    if i < 0 || i >= lines.len() {
        None
    } else {
        match spec_cursor_pos_line(lines[i], cursor, i) {
            Some(p) => Some(p),
            None => spec_cursor_pos(lines, cursor - lines[i].chars.len(), i + 1),
        }
    }
}

/// The pixel position of the text's cursor: its match over the lines, or
/// past everything the end of the last line, or the origin of an empty
/// layout.
pub open spec fn spec_cursor_position(lines: Seq<LineV>, cursor: int) -> (int, int) {
    match spec_cursor_pos(lines, cursor, 0) {
        Some(p) => p,
        None => if lines.len() > 0 {
            (lines.last().width, (lines.len() - 1) * lines.last().height)
        } else {
            (0, 0)
        },
    }
}

/// The vertical slop below a line's top within which a click still hits
/// the line.
pub const CLICK_SLOP: i128 = 5;

/// The flat cursor index a click resolves to within one line, if its
/// vertical band (with slop above) contains `y`: the first character
/// whose horizontal span holds `x` decides, the click falling in its
/// right half advancing past it; off every character, the click rests at
/// the line's start or end.
pub open spec fn spec_click_line(l: LineV, x: int, y: int, base: int) -> Option<int> {
    let top = if l.chars.len() > 0 { l.chars[0].y } else { 0 };
    if y >= top - CLICK_SLOP && y <= top + l.height {
        Some(spec_click_chars(l, x, base, 0))
    } else {
        None
    }
}

/// The flat index a click resolves to among a line's characters from `j`.
pub open spec fn spec_click_chars(l: LineV, x: int, base: int, j: int) -> int
    decreases l.chars.len() - j,
{
    if j < 0 || j >= l.chars.len() {
        if l.chars.len() > 0 && x < l.chars[0].x {
            base
        } else {
            base + l.chars.len()
        }
    } else {
        let c = l.chars[j];
        if c.x <= x <= c.x + c.advance {
            if x <= c.x + crate::num::shalf(c.advance) {
                base + j
            } else {
                base + j + 1
            }
        } else {
            spec_click_chars(l, x, base, j + 1)
        }
    }
}

/// The flat cursor index a click resolves to over the lines from `i`:
/// the first line whose band holds `y` decides; past every line, the
/// index after all characters.
pub open spec fn spec_click(lines: Seq<LineV>, x: int, y: int, base: int, i: int) -> int
    decreases lines.len() - i,
{
    if i < 0 || i >= lines.len() {
        base
    } else {
        match spec_click_line(lines[i], x, y, base) {
            Some(r) => r,
            None => spec_click(lines, x, y, base + lines[i].chars.len(), i + 1),
        }
    }
}

impl Text {
    /// The pixel position of the text's cursor over its laid-out lines.
    /// Asking for the position of an absent cursor is a caller error.
    pub fn cursor_position(&self) -> (r: (i128, i128))
        requires
            self.wf(),
            self.cursor is Some,
        ensures
            (r.0 as int, r.1 as int) == spec_cursor_position(
                spec_layout(*self), self.cursor->0 as int),
    {
        let ls = self.lines();
        let ghost lv = ls@.map_values(|l: Line| l@);
        let mut cur: usize = match self.cursor {
            Some(c) => c,
            None => 0,
        };
        let mut i: usize = 0;
        while i < ls.len()
            invariant
                i <= ls@.len(),
                lv == ls@.map_values(|l: Line| l@),
                lv == spec_layout(*self),
                self.cursor is Some,
                self.wf(),
                forall|j: int| 0 <= j < ls@.len()
                    ==> out_line_wf((#[trigger] ls@[j])@),
                spec_cursor_pos(lv, self.cursor->0 as int, 0)
                    == spec_cursor_pos(lv, cur as int, i as int),
            decreases ls@.len() - i,
        {
            let nch = ls[i].chars.len();
            proof {
                assert(out_line_wf(ls@[i as int]@));
                vstd::arithmetic::mul::lemma_mul_upper_bound(
                    i as int, 0x1_0000_0000_0000_0000,
                    ls@[i as int]@.height, SCALED_MAX as int);
                vstd::arithmetic::mul::lemma_mul_nonnegative(
                    i as int, ls@[i as int]@.height);
            }
            if cur < nch {
                let c = ls[i].chars[cur];
                proof {
                    assert(out_line_wf(ls@[i as int]@));
                    assert(ls@[i as int]@.chars[cur as int]
                        == ls@[i as int].chars@[cur as int]@);
                    vstd::arithmetic::mul::lemma_mul_upper_bound(
                        i as int, 0x1_0000_0000_0000_0000,
                        c.line_height as int, SCALED_MAX as int);
                    vstd::arithmetic::mul::lemma_mul_nonnegative(
                        i as int, c.line_height as int);
                }
                return (c.x, (i as i128) * c.line_height);
            } else if cur == nch {
                return (ls[i].width, (i as i128) * ls[i].height);
            }
            cur = cur - nch;
            i += 1;
        }
        if ls.len() > 0 {
            let last = &ls[ls.len() - 1];
            proof {
                assert(out_line_wf(ls@[ls@.len() - 1]@));
                vstd::arithmetic::mul::lemma_mul_upper_bound(
                    ls@.len() - 1, 0x1_0000_0000_0000_0000, last.height as int,
                    SCALED_MAX as int);
                vstd::arithmetic::mul::lemma_mul_nonnegative(
                    ls@.len() - 1, last.height as int);
            }
            ((last.width), ((ls.len() - 1) as i128) * last.height)
        } else {
            (0, 0)
        }
    }

    /// Place the cursor where a click lands: the first line whose band
    /// (with slop above its top) holds `y` is scanned for the character
    /// whose span holds `x`, a click in the right half advancing past it;
    /// below every line the cursor rests after all characters.
    pub fn cursor_click(&mut self, x: i128, y: i128)
        requires
            old(self).wf(),
            -C_OUT <= x <= C_OUT,
            -C_OUT <= y <= C_OUT,
            spec_chars_from(spec_layout(*old(self)), 0) <= usize::MAX,
        ensures
            final(self).spans == old(self).spans,
            final(self).width == old(self).width,
            final(self).align == old(self).align,
            final(self).max_lines == old(self).max_lines,
            final(self).cursor == Some((spec_click(
                spec_layout(*old(self)), x as int, y as int, 0, 0) as usize)),
    {
        let ls = self.lines();
        let ghost lv = ls@.map_values(|l: Line| l@);
        let mut base: usize = 0;
        let mut i: usize = 0;
        let ghost target = spec_click(lv, x as int, y as int, 0, 0);
        proof {
            lemma_click_total_chars(lv, x as int, y as int, 0, 0);
        }
        while i < ls.len()
            invariant
                i <= ls@.len(),
                lv == ls@.map_values(|l: Line| l@),
                lv == spec_layout(*old(self)),
                forall|j: int| 0 <= j < ls@.len()
                    ==> out_line_wf((#[trigger] ls@[j])@),
                target == spec_click(lv, x as int, y as int, 0, 0),
                0 <= target <= usize::MAX,
                target == spec_click(lv, x as int, y as int, base as int, i as int),
                base + spec_chars_from(lv, i as int) <= usize::MAX,
                -C_OUT <= x <= C_OUT,
                -C_OUT <= y <= C_OUT,
                self == old(self),
            decreases ls@.len() - i,
        {
            let line = &ls[i];
            let top: i128 = if line.chars.len() > 0 { line.chars[0].y } else { 0 };
            proof {
                assert(out_line_wf(ls@[i as int]@));
                if line.chars@.len() > 0 {
                    assert(ls@[i as int]@.chars[0] == ls@[i as int].chars@[0]@);
                }
            }
            if y >= top - CLICK_SLOP && y <= top + line.height {
                let mut j: usize = 0;
                proof {
                    lemma_chars_from_step(lv, i as int);
                }
                while j < line.chars.len()
                    invariant
                        j <= line.chars@.len(),
                        i < ls@.len(),
                        lv == ls@.map_values(|l: Line| l@),
                        lv == spec_layout(*old(self)),
                        target == spec_click(lv, x as int, y as int, 0, 0),
                        *line == ls@[i as int],
                        out_line_wf(ls@[i as int]@),
                        base + line.chars@.len() <= usize::MAX,
                        -C_OUT <= x <= C_OUT,
                        target == spec_click_chars(lv[i as int], x as int,
                            base as int, j as int),
                        0 <= target,
                        self == old(self),
                    decreases line.chars@.len() - j,
                {
                    let c = line.chars[j];
                    proof {
                        assert(ls@[i as int]@.chars[j as int]
                            == ls@[i as int].chars@[j as int]@);
                    }
                    if c.x <= x && x <= c.x + c.advance {
                        if x <= c.x + half_i128(c.advance) {
                            self.cursor = Some(base + j);
                        } else {
                            self.cursor = Some(base + j + 1);
                        }
                        return ;
                    }
                    j += 1;
                }
                if line.chars.len() > 0 {
                    let c0 = line.chars[0];
                    proof {
                        assert(ls@[i as int]@.chars[0] == ls@[i as int].chars@[0]@);
                    }
                    if x < c0.x {
                        self.cursor = Some(base);
                    } else {
                        self.cursor = Some(base + line.chars.len());
                    }
                } else {
                    self.cursor = Some(base + line.chars.len());
                }
                return ;
            }
            proof {
                lemma_chars_from_step(lv, i as int);
            }
            base = base + line.chars.len();
            i += 1;
        }
        self.cursor = Some(base);
    }
}

/// The characters on the lines from `i` on.
pub open spec fn spec_chars_from(lines: Seq<LineV>, i: int) -> int
    decreases lines.len() - i,
{
    if i < 0 || i >= lines.len() {
        0
    } else {
        lines[i].chars.len() + spec_chars_from(lines, i + 1)
    }
}

/// One step of the remaining-character count.
proof fn lemma_chars_from_step(lines: Seq<LineV>, i: int)
    requires
        0 <= i < lines.len(),
    ensures
        spec_chars_from(lines, i)
            == lines[i].chars.len() + spec_chars_from(lines, i + 1),
        spec_chars_from(lines, i + 1) >= 0,
    decreases lines.len() - i,
{
    lemma_chars_from_nonneg(lines, i + 1);
}

/// The remaining-character count is nonnegative.
proof fn lemma_chars_from_nonneg(lines: Seq<LineV>, i: int)
    ensures
        spec_chars_from(lines, i) >= 0,
    decreases lines.len() - i,
{
    if 0 <= i < lines.len() {
        lemma_chars_from_nonneg(lines, i + 1);
    }
}

/// A click resolves to an index within the text's character count plus
/// one, so the flat index fits the machine word.
proof fn lemma_click_total_chars(lines: Seq<LineV>, x: int, y: int, base: int, i: int)
    requires
        0 <= base,
        0 <= i,
        base + spec_chars_from(lines, i) <= usize::MAX,
    ensures
        base <= spec_click(lines, x, y, base, i)
            <= base + spec_chars_from(lines, i),
    decreases lines.len() - i,
{
    if 0 <= i < lines.len() {
        lemma_chars_from_step(lines, i);
        lemma_chars_from_nonneg(lines, i + 1);
        match spec_click_line(lines[i], x, y, base) {
            Some(r) => {
                lemma_click_chars_range(lines[i], x, base, 0);
            },
            None => {
                lemma_click_total_chars(lines, x, y,
                    base + lines[i].chars.len() as int, i + 1);
            },
        }
    }
}

/// A click within a line resolves between its start and one past its
/// characters.
proof fn lemma_click_chars_range(l: LineV, x: int, base: int, j: int)
    requires
        0 <= j,
    ensures
        ({
            let r = spec_click_chars(l, x, base, j);
            base <= r <= base + l.chars.len()
        }),
    decreases l.chars.len() - j,
{
    if 0 <= j < l.chars.len() {
        lemma_click_chars_range(l, x, base, j + 1);
    }
}

/// Truncating half of a machine-wide value.
fn half_i128(a: i128) -> (r: i128)
    requires
        a > i128::MIN,
    ensures
        r == crate::num::shalf(a as int),
{
    if a >= 0 {
        a / 2
    } else {
        -((-a) / 2)
    }
}

/// Build the raw (unaligned, untruncated) lines of a text.
fn build_raw(t: &Text) -> (b: Builder)
    requires
        t.wf(),
    ensures
        b.wf(),
        b@ == st_spans(st_empty(), t.spans@, t.width),
{
    let mut b = Builder::new(t.width);
    let mut i: usize = 0;
    proof {
        assert(t.spans@.skip(0) =~= t.spans@);
    }
    while i < t.spans.len()
        invariant
            i <= t.spans@.len(),
            t.wf(),
            b.wf(),
            b.width_hint == t.width,
            st_spans(b@, t.spans@.skip(i as int), t.width)
                == st_spans(st_empty(), t.spans@, t.width),
        decreases t.spans@.len() - i,
    {
        let ghost pre = t.spans@.skip(i as int);
        proof {
            assert(pre[0] == t.spans@[i as int]);
            assert(pre.skip(1) =~= t.spans@.skip(i as int + 1));
        }
        b.scan_span(&t.spans[i]);
        i += 1;
    }
    proof {
        assert(t.spans@.skip(t.spans@.len() as int) =~= Seq::<Span>::empty());
    }
    b
}

/// Shift every line by its alignment offset.
fn align_pass(lines: &mut Vec<Line>, align: Align, width: Option<i64>)
    requires
        forall|i: int| 0 <= i < old(lines)@.len()
            ==> line_bounds_wf((#[trigger] old(lines)@[i])@),
    ensures
        final(lines)@.map_values(|l: Line| l@) == spec_aligned(align, width,
            old(lines)@.map_values(|l: Line| l@)),
        forall|i: int| 0 <= i < final(lines)@.len()
            ==> aln_line_wf((#[trigger] final(lines)@[i])@),
{
    let mut i: usize = 0;
    while i < lines.len()
        invariant
            i <= lines@.len(),
            lines@.len() == old(lines)@.len(),
            forall|j: int| 0 <= j < i ==> (#[trigger] lines@[j])@
                == spec_align_line(align, width, old(lines)@[j]@),
            forall|j: int| 0 <= j < i ==> aln_line_wf((#[trigger] lines@[j])@),
            forall|j: int| i <= j < lines@.len()
                ==> #[trigger] lines@[j] == old(lines)@[j],
            forall|j: int| 0 <= j < lines@.len()
                ==> line_bounds_wf((#[trigger] old(lines)@[j])@),
        decreases lines@.len() - i,
    {
        let nch = lines[i].chars.len();
        proof {
            vstd::arithmetic::mul::lemma_mul_inequality(
                nch as int, 0x1_0000_0000_0000_0000, CHAR_STEP as int);
            assert((-(nch as int)) * (CHAR_STEP as int)
                >= -(0x1_0000_0000_0000_0000 * (CHAR_STEP as int))) by (nonlinear_arith)
                requires 0 <= nch as int <= 0x1_0000_0000_0000_0000;
            assert(-((nch as int) * (CHAR_STEP as int))
                == (-(nch as int)) * (CHAR_STEP as int)) by (nonlinear_arith);
        }
        let lw = lines[i].width;
        let off: i128 = match align {
            Align::Left => 0,
            Align::Center => match width {
                Some(w) => half_i128((w as i128) - lw),
                None => 0,
            },
            Align::Right => match width {
                Some(w) => (w as i128) - lw,
                None => 0,
            },
        };
        proof {
            assert(off == spec_align_offset(align, width, lines@[i as int]@.width));
        }
        let mut j: usize = 0;
        while j < nch
            invariant
                j <= nch,
                i < lines@.len(),
                lines@.len() == old(lines)@.len(),
                nch == lines@[i as int].chars@.len(),
                nch == old(lines)@[i as int].chars@.len(),
                -0x800000000000000000000000000 <= off <= 0x800000000000000000000000000,
                lines@[i as int].width == old(lines)@[i as int].width,
                lines@[i as int].height == old(lines)@[i as int].height,
                line_bounds_wf(old(lines)@[i as int]@),
                forall|k: int| 0 <= k < j ==> (#[trigger] lines@[i as int].chars@[k])@
                    == spec_shift_x(old(lines)@[i as int].chars@[k]@, off as int),
                forall|k: int| j <= k < nch ==> #[trigger] lines@[i as int].chars@[k]
                    == old(lines)@[i as int].chars@[k],
                forall|j2: int| 0 <= j2 < i ==> (#[trigger] lines@[j2])@
                    == spec_align_line(align, width, old(lines)@[j2]@),
                forall|j2: int| 0 <= j2 < i ==> aln_line_wf((#[trigger] lines@[j2])@),
                forall|j2: int| i < j2 < lines@.len()
                    ==> #[trigger] lines@[j2] == old(lines)@[j2],
            decreases nch - j,
        {
            proof {
                assert(lines@[i as int].chars@[j as int]
                    == old(lines)@[i as int].chars@[j as int]);
                assert(char_frozen_wf((old(lines)@[i as int])@.chars[j as int]));
                assert((old(lines)@[i as int])@.chars[j as int]
                    == old(lines)@[i as int].chars@[j as int]@);
            }
            let x = lines[i].chars[j].x;
            lines[i].chars[j].x = x + off;
            j += 1;
        }
        let w0 = lines[i].width;
        lines[i].width = w0 + off;
        proof {
            assert((lines@[i as int])@ =~~= spec_align_line(
                align, width, old(lines)@[i as int]@));
        }
        i += 1;
    }
    proof {
        assert(lines@.map_values(|l: Line| l@) =~= spec_aligned(align, width,
            old(lines)@.map_values(|l: Line| l@)));
    }
}

/// A character shifted horizontally.
pub open spec fn spec_shift_x(c: CharV, off: int) -> CharV {
    CharV { ch: c.ch, x: c.x + off, y: c.y, w: c.w, h: c.h, font_id: c.font_id,
        color: c.color, line_height: c.line_height, advance: c.advance }
}

/// An aligned line fits in the wider finished-layout box.
proof fn lemma_aln_to_out(l: LineV)
    requires
        aln_line_wf(l),
    ensures
        out_line_wf(l),
{
    assert forall|i: int| 0 <= i < l.chars.len() implies {
        &&& char_core_wf(#[trigger] l.chars[i])
        &&& -C_OUT <= l.chars[i].x <= C_OUT
        &&& -C_OUT <= l.chars[i].y <= C_OUT
    } by {
        assert(char_core_wf(l.chars[i]) && -(C_ALN as int) <= l.chars[i].x <= C_ALN as int
            && -(C_ALN as int) <= l.chars[i].y <= C_ALN as int);
    }
}

/// Truncate the lines to the maximum line count, appending the ellipsis.
fn truncate_pass(t: &Text, lines: &mut Vec<Line>)
    requires
        t.wf(),
        forall|i: int| 0 <= i < old(lines)@.len()
            ==> aln_line_wf((#[trigger] old(lines)@[i])@),
    ensures
        final(lines)@.map_values(|l: Line| l@) == spec_truncate(
            *t, old(lines)@.map_values(|l: Line| l@)),
        forall|i: int| 0 <= i < final(lines)@.len()
            ==> out_line_wf((#[trigger] final(lines)@[i])@),
{
    let ghost lv0 = old(lines)@.map_values(|l: Line| l@);
    let m: u32 = match t.max_lines {
        Some(m) => m,
        None => {
            proof {
                assert forall|i: int| 0 <= i < lines@.len()
                    implies out_line_wf((#[trigger] lines@[i])@) by {
                    lemma_aln_to_out(lines@[i]@);
                }
            }
            return ;
        },
    };
    let keep: usize = if (m as usize) <= lines.len() { m as usize } else { lines.len() };
    let cut_any = lines.len() > m as usize;
    lines.truncate(keep);
    proof {
        assert(lines@.map_values(|l: Line| l@) =~= lv0.take(keep as int));
    }
    if !(cut_any && lines.len() > 0 && t.spans.len() > 0) {
        proof {
            assert forall|i: int| 0 <= i < lines@.len()
                implies out_line_wf((#[trigger] lines@[i])@) by {
                assert(lines@[i]@ == lv0.take(keep as int)[i]);
                assert(aln_line_wf(old(lines)@[i]@));
                lemma_aln_to_out(lines@[i]@);
            }
        }
        return ;
    }
    let ghost kept = lv0.take(keep as int);
    let mut y: i128 = 0;
    let mut i: usize = 0;
    while i < lines.len()
        invariant
            i <= lines@.len(),
            lines@.map_values(|l: Line| l@) == kept,
            forall|j: int| 0 <= j < lines@.len()
                ==> aln_line_wf((#[trigger] lines@[j])@),
            y == sum_heights(kept.take(i as int)),
            0 <= y <= (i as int) * (SCALED_MAX as int),
        decreases lines@.len() - i,
    {
        proof {
            assert(kept.take(i as int + 1).drop_last() =~= kept.take(i as int));
            assert(kept.take(i as int + 1).last() == (lines@[i as int])@);
            vstd::arithmetic::mul::lemma_mul_is_distributive_add_other_way(
                SCALED_MAX as int, i as int, 1);
        }
        y = y + lines[i].height;
        i += 1;
    }
    proof {
        assert(kept.take(kept.len() as int) =~= kept);
        vstd::arithmetic::mul::lemma_mul_inequality(
            lines@.len() as int, 0x1_0000_0000_0000_0000, SCALED_MAX as int);
    }
    let span0 = &t.spans[0];
    let li = lines.len() - 1;
    let cl = lines[li].chars.len();
    let cut: usize = if cl >= 3 { cl - 3 } else { 0 };
    let mut last = match lines.pop() {
        Some(l) => l,
        None => {
            proof {
                assert(false);
            }
            return ;
        },
    };
    last.chars.truncate(cut);
    let ghost dropped = LineV { width: kept.last().width, height: kept.last().height,
        chars: kept.last().chars.take(cut as int) };
    proof {
        assert(last@ =~~= dropped);
    }
    let mut start_x: i128 = if cut > 0 {
        let c = last.chars[cut - 1];
        proof {
            assert(char_core_wf(dropped.chars[cut - 1]));
            assert(-C_ALN <= dropped.chars[cut - 1].x <= C_ALN);
        }
        c.x + c.advance
    } else {
        0
    };
    let ghost sx0 = start_x as int;
    let ghost yv = y as int;
    let lh = line_height_of(span0);
    let descent = descent_of(span0);
    let mut k: usize = 0;
    while k < 3
        invariant
            k <= 3,
            t.wf(),
            t.spans@.len() > 0,
            span0 == t.spans@[0],
            spec_push_dots(last@, *span0, yv, start_x as int, (3 - k) as nat)
                == spec_push_dots(dropped, *span0, yv, sx0, 3),
            -C_ALN - CHAR_STEP - (k as int) * CHAR_STEP <= start_x
                <= C_ALN + CHAR_STEP + (k as int) * CHAR_STEP,
            -C_ALN - (k as int) * CHAR_STEP <= last.width
                <= C_ALN + (k as int) * CHAR_STEP,
            0 <= last.height <= SCALED_MAX,
            0 <= yv <= C_CUR,
            yv == y as int,
            lh == span0.spec_line_height(),
            0 <= lh <= SCALED_MAX,
            descent == span0.spec_descent(),
            -SCALED_MAX <= descent <= SCALED_MAX,
            forall|ci: int| 0 <= ci < last@.chars.len() ==> {
                &&& char_core_wf(#[trigger] last@.chars[ci])
                &&& -C_OUT <= last@.chars[ci].x <= C_OUT
                &&& -C_OUT <= last@.chars[ci].y <= C_OUT
            },
        decreases 3 - k,
    {
        let ghost pre_last = last@;
        let ghost pre_sx = start_x as int;
        let g = scaled_glyph(&span0.font, '.', span0.font_size);
        let aw: i128 = (g.advance as i128) + (span0.kerning as i128);
        let dot = Character {
            ch: '.',
            x: start_x + (g.xmin as i128),
            y: (y as i128) - (g.ymin as i128) - (g.height as i128) + (descent as i128),
            w: g.width as i128,
            h: g.height as i128,
            font_id: span0.font.id,
            color: span0.color,
            line_height: lh as i128,
            advance: aw,
        };
        last.chars.push(dot);
        last.width = last.width + aw;
        if last.height < lh as i128 {
            last.height = lh as i128;
        }
        start_x = start_x + aw;
        proof {
            let gs = spec_scaled_glyph(span0.font, '.', span0.font_size as int);
            let lhs = span0.spec_line_height();
            let cs = CharV {
                ch: '.', x: pre_sx + gs.xmin, y: yv - gs.ymin - gs.height
                    + span0.spec_descent(), w: gs.width as int, h: gs.height as int,
                font_id: span0.font.id, color: span0.color, line_height: lhs,
                advance: gs.advance + span0.kerning,
            };
            assert(last@.chars.len() == pre_last.chars.len() + 1);
            assert(last@.chars.last().ch == cs.ch);
            assert(last@.chars.last().x == cs.x);
            assert(last@.chars.last().y == cs.y);
            assert(last@.chars.last().w == cs.w);
            assert(last@.chars.last().h == cs.h);
            assert(last@.chars.last().line_height == cs.line_height);
            assert(last@.chars.last().advance == cs.advance);
            assert(last@ =~~= (LineV {
                width: pre_last.width + gs.advance + span0.kerning,
                height: if pre_last.height >= lhs { pre_last.height } else { lhs },
                chars: pre_last.chars.push(cs),
            }));
            assert(spec_push_dots(pre_last, *span0, yv, pre_sx, (3 - k) as nat)
                == spec_push_dots(last@, *span0, yv, start_x as int, (3 - k - 1) as nat));
        }
        k += 1;
    }
    lines.push(last);
    proof {
        assert(last@ =~~= spec_push_dots(dropped, *span0, yv, sx0, 3));
        assert(lines@.map_values(|l: Line| l@) =~= kept.update(
            keep as int - 1, spec_push_dots(dropped, *span0, yv, sx0, 3)));
        assert(out_line_wf(last@));
        assert forall|i: int| 0 <= i < lines@.len()
            implies out_line_wf((#[trigger] lines@[i])@) by {
            if i < lines@.len() - 1 {
                assert(lines@[i]@ == kept[i]);
                assert(aln_line_wf(old(lines)@[i]@));
                lemma_aln_to_out(lines@[i]@);
            }
        }
    }
}

} // verus!
