//! Cursor navigation over laid-out runs: pointer hit-testing with
//! grapheme-cluster subdivision, directional movement, and pixel
//! positioning. Coordinates are integer units.
use vstd::prelude::*;

verus! {

/// A generous bound on every coordinate a run may carry.
pub const C_RUN: i128 = 0x1000_0000_0000_0000;

/// What a caller may ask of a cursor.
#[derive(Debug, Clone, Copy, PartialEq, Eq, Structural)]
pub enum CursorAction {
    GetPosition,
    GetIndex,
    MoveLeft,
    MoveRight,
    MoveNewline,
}

/// Whether a cursor logically attaches before or after its boundary.
#[derive(Debug, Clone, Copy, PartialEq, Eq, Structural)]
pub enum Affinity {
    Before,
    After,
}

/// One shaped glyph of a run: the character range of its cluster, its
/// horizontal band, and its direction level.
#[derive(Debug, Clone, Copy, PartialEq, Eq, Structural)]
pub struct Glyph {
    /// The first character of the cluster.
    pub start: usize,
    /// One past the last character of the cluster.
    pub end: usize,
    /// The left edge of the glyph band.
    pub x: i128,
    /// The width of the glyph band.
    pub w: i128,
    /// Whether the glyph is laid out right-to-left.
    pub rtl: bool,
}

/// One laid-out run: a line of shaped glyphs over its text.
#[derive(Debug, Clone, PartialEq)]
pub struct Run {
    /// The line number of the run.
    pub line_i: usize,
    /// The top of the line band.
    pub line_top: i128,
    /// The height of the line band.
    pub line_height: i128,
    /// The baseline used by hit tests below the last line.
    pub line_y: i128,
    /// Whether the run as a whole is right-to-left.
    pub rtl: bool,
    /// The characters of the run.
    pub chars: Vec<char>,
    /// The glyphs of the run, in visual order.
    pub glyphs: Vec<Glyph>,
}

impl Run {
    /// A well-formed run: clusters are ordered, contiguous, non-empty and
    /// within the text; glyph bands are contiguous from the left edge and
    /// positive; all coordinates are bounded.
    pub open spec fn wf(&self) -> bool {
        &&& -C_RUN <= self.line_top <= C_RUN
        &&& 0 < self.line_height <= C_RUN
        &&& self.line_top <= self.line_y <= C_RUN
        &&& forall|i: int| 0 <= i < self.glyphs@.len() ==> {
            &&& (#[trigger] self.glyphs@[i]).start < self.glyphs@[i].end
            &&& self.glyphs@[i].end <= self.chars@.len()
            &&& 0 <= self.glyphs@[i].x <= C_RUN
            &&& 0 < self.glyphs@[i].w <= C_RUN
        }
        &&& forall|i: int| 0 <= i < self.glyphs@.len() - 1
            ==> (#[trigger] self.glyphs@[i]).end == self.glyphs@[i + 1].start
        &&& self.glyphs@.len() > 0 ==> self.glyphs@[0].x == 0
        &&& forall|i: int| 0 <= i < self.glyphs@.len() - 1
            ==> (#[trigger] self.glyphs@[i]).x + self.glyphs@[i].w
                == self.glyphs@[i + 1].x
        &&& self.chars@.len() <= 0xFFFF_FFFF_FFFF_FFFF
        &&& self.glyphs@.len() <= 0xFFFF_FFFF_FFFF_FFFF
    }
}

/// A well-formed buffer of runs: each run well formed and numbered by its
/// position, with line bands stacked contiguously from the top.
pub open spec fn buffer_wf(runs: Seq<Run>) -> bool {
    &&& forall|i: int| 0 <= i < runs.len() ==> (#[trigger] runs[i]).wf()
    &&& forall|i: int| 0 <= i < runs.len() ==> (#[trigger] runs[i]).line_i == i
    &&& runs.len() > 0 ==> runs[0].line_top == 0
    &&& forall|i: int| 0 <= i < runs.len() - 1
        ==> (#[trigger] runs[i]).line_top + runs[i].line_height
            == runs[i + 1].line_top
    &&& runs.len() <= 0xFFFF_FFFF_FFFF_FFFF
}

/// The character offsets at which the grapheme clusters of a character
/// sequence begin.
pub uninterp spec fn grapheme_starts(s: Seq<char>) -> Seq<usize>;

/// Relies on unicode_segmentation's grapheme_indices: the grapheme
/// clusters of a string partition it into non-empty pieces, the first at
/// its start, and depend on its characters alone.
#[verifier::external_body]
fn grapheme_char_starts(chars: &Vec<char>) -> (r: Vec<usize>)
    ensures
        r@ == grapheme_starts(chars@),
        chars@.len() == 0 ==> r@.len() == 0,
        chars@.len() > 0 ==> r@.len() >= 1 && r@[0] == 0,
        forall|i: int| 0 <= i < r@.len() ==> (#[trigger] r@[i]) < chars@.len(),
        forall|i: int| 0 <= i < r@.len() - 1 ==> (#[trigger] r@[i]) < r@[i + 1],
{
    let s: String = chars.iter().collect();
    let mut starts: Vec<usize> = Vec::new();
    let mut pos: usize = 0;
    for (_, g) in unicode_segmentation::UnicodeSegmentation::grapheme_indices(
        s.as_str(), true) {
        starts.push(pos);
        pos += g.chars().count();
    }
    starts
}

/// The characters of a cluster range.
fn slice_chars(chars: &Vec<char>, start: usize, end: usize) -> (r: Vec<char>)
    requires
        start <= end <= chars@.len(),
    ensures
        r@ == chars@.subrange(start as int, end as int),
{
    let mut r: Vec<char> = Vec::new();
    let mut i: usize = start;
    while i < end
        invariant
            start <= i <= end <= chars@.len(),
            r@ == chars@.subrange(start as int, i as int),
        decreases end - i,
    {
        r.push(chars[i]);
        proof {
            assert(r@ =~= chars@.subrange(start as int, i as int + 1));
        }
        i += 1;
    }
    r
}

/// A cursor into a laid-out text: a line, a character index on it, which
/// side of the boundary it attaches to, and a cached pixel position.
#[derive(Debug, Clone, Copy, PartialEq)]
pub struct Cursor {
    /// The layout line number.
    pub line: usize,
    /// The character index on the line.
    pub index: usize,
    /// Whether the cursor appears before or after the glyph boundary.
    pub affinity: Affinity,
    /// The cached pixel position, if resolved.
    pub position: Option<(i128, i128)>,
}

impl Cursor {
    /// The cursor at the start of a layout.
    pub fn new() -> (r: Cursor)
        ensures
            r == (Cursor { line: 0, index: 0, affinity: Affinity::Before,
                position: None::<(i128, i128)> }),
    {
        Cursor { line: 0, index: 0, affinity: Affinity::Before, position: None }
    }
}

/// The character index one past the last cluster of a run, or zero for a
/// run without glyphs.
pub open spec fn spec_line_end(run: Run) -> int {
    if run.glyphs@.len() > 0 {
        run.glyphs@.last().end as int
    } else {
        0
    }
}

/// The horizontal pen position of an index on a run: the summed widths of
/// the glyphs before the cluster holding the index, or the full width if
/// none holds it.
pub open spec fn spec_pos_x(glyphs: Seq<Glyph>, index: int) -> int
    decreases glyphs.len(),
{
    if glyphs.len() == 0 {
        0
    } else if glyphs[0].start <= index < glyphs[0].end {
        0
    } else {
        glyphs[0].w + spec_pos_x(glyphs.skip(1), index)
    }
}

/// The pixel position of a cursor: the pen position on its line and the
/// line band's top; past the last line, the bottom of the layout.
pub open spec fn spec_position(runs: Seq<Run>, line: int, index: int) -> (int, int) {
    if 0 <= line < runs.len() {
        (spec_pos_x(runs[line].glyphs@, index), runs[line].line_top as int)
    } else if runs.len() > 0 {
        (0, runs.last().line_top + runs.last().line_height)
    } else {
        (0, 0)
    }
}

impl Cursor {
    /// Resolve the cursor's pixel position against the runs: the summed
    /// glyph widths up to its index, at its line band's top, clamped past
    /// the last line to the layout's bottom.
    #[verifier::rlimit(80)]
    pub fn position(&mut self, runs: &Vec<Run>)
        requires
            buffer_wf(runs@),
        ensures
            final(self).line == old(self).line,
            final(self).index == old(self).index,
            final(self).affinity == old(self).affinity,
            final(self).position == Some((
                spec_position(runs@, old(self).line as int, old(self).index as int).0 as i128,
                spec_position(runs@, old(self).line as int, old(self).index as int).1 as i128,
            )),
    {
        if self.line < runs.len() {
            let run = &runs[self.line];
            let mut x: i128 = 0;
            let mut g: usize = 0;
            let ghost gs = run.glyphs@;
            proof {
                assert(gs.skip(0) =~= gs);
            }
            while g < run.glyphs.len()
                invariant
                    g <= run.glyphs@.len(),
                    gs == run.glyphs@,
                    run.wf(),
                    old(self).line < runs@.len(),
                    *run == runs@[old(self).line as int],
                    0 <= x <= (g as int) * (C_RUN as int),
                    spec_pos_x(gs, old(self).index as int) == x + spec_pos_x(
                        gs.skip(g as int), old(self).index as int),
                    self == old(self),
                decreases run.glyphs@.len() - g,
            {
                let ghost pre = gs.skip(g as int);
                let gl = run.glyphs[g];
                proof {
                    assert(pre[0] == gl);
                    assert(pre.skip(1) =~= gs.skip(g as int + 1));
                    vstd::arithmetic::mul::lemma_mul_is_distributive_add_other_way(
                        C_RUN as int, g as int, 1);
                    vstd::arithmetic::mul::lemma_mul_inequality(
                        g as int, 0xFFFF_FFFF_FFFF_FFFF, C_RUN as int);
                }
                if gl.start <= self.index && self.index < gl.end {
                    proof {
                        assert(spec_pos_x(pre, old(self).index as int) == 0);
                    }
                    self.position = Some((x, run.line_top));
                    return ;
                }
                x = x + gl.w;
                g += 1;
            }
            proof {
                assert(gs.skip(gs.len() as int) =~= Seq::<Glyph>::empty());
            }
            self.position = Some((x, run.line_top));
        } else if runs.len() > 0 {
            let last = &runs[runs.len() - 1];
            self.position = Some((0, last.line_top + last.line_height));
        } else {
            self.position = Some((0, 0));
        }
    }
}

/// The count of glyphs on the runs before a line.
pub open spec fn spec_glyphs_before(runs: Seq<Run>, line: int) -> int
    decreases line,
{
    if line <= 0 || runs.len() == 0 {
        0
    } else if line > runs.len() {
        spec_glyphs_before(runs, runs.len() as int)
    } else {
        spec_glyphs_before(runs, line - 1) + runs[line - 1].glyphs@.len()
    }
}

/// The count of glyphs of a run whose clusters end at or before an index.
pub open spec fn spec_glyphs_upto(glyphs: Seq<Glyph>, index: int) -> int
    decreases glyphs.len(),
{
    if glyphs.len() == 0 {
        0
    } else {
        (if glyphs.last().end <= index { 1int } else { 0int })
            + spec_glyphs_upto(glyphs.drop_last(), index)
    }
}

/// The total count of glyphs over all runs.
pub open spec fn spec_total_glyphs(runs: Seq<Run>) -> int
    decreases runs.len(),
{
    if runs.len() == 0 {
        0
    } else {
        spec_total_glyphs(runs.drop_last()) + runs.last().glyphs@.len()
    }
}

impl Cursor {
    /// The flat character-plus-newline index of the cursor over the runs:
    /// every glyph of earlier lines, the glyphs of its own line whose
    /// clusters end at or before its index, and one for each earlier line
    /// break.
    pub fn get_index(&mut self, runs: &Vec<Run>) -> (r: usize)
        requires
            buffer_wf(runs@),
            spec_total_glyphs(runs@) + old(self).line <= usize::MAX,
        ensures
            *final(self) == *old(self),
            r == spec_glyphs_before(runs@, old(self).line as int) + (
                if old(self).line < runs@.len() {
                    spec_glyphs_upto(runs@[old(self).line as int].glyphs@,
                        old(self).index as int)
                } else {
                    0int
                }) + old(self).line,
    {
        let mut count: usize = 0;
        let mut i: usize = 0;
        proof {
            lemma_total_glyphs_nonneg(runs@);
        }
        while i < runs.len() && i < self.line
            invariant
                buffer_wf(runs@),
                i <= runs@.len(),
                i <= self.line,
                self == old(self),
                count == spec_glyphs_before(runs@, i as int),
                spec_total_glyphs(runs@) + old(self).line <= usize::MAX,
                0 <= count <= spec_total_glyphs(runs@),
            decreases runs@.len() - i,
        {
            proof {
                lemma_glyphs_before_step(runs@, i as int);
                lemma_glyphs_before_le_total(runs@, i as int + 1);
            }
            count = count + runs[i].glyphs.len();
            i += 1;
        }
        proof {
            if self.line as int >= runs@.len() {
                lemma_glyphs_before_clamp(runs@, self.line as int);
            }
            lemma_glyphs_before_le_total(runs@, self.line as int);
        }
        if self.line < runs.len() {
            let run = &runs[self.line];
            let mut g: usize = 0;
            let ghost gs = run.glyphs@;
            let mut upto: usize = 0;
            while g < run.glyphs.len()
                invariant
                    buffer_wf(runs@),
                    g <= run.glyphs@.len(),
                    gs == run.glyphs@,
                    *run == runs@[old(self).line as int],
                    old(self).line < runs@.len(),
                    self == old(self),
                    upto == spec_glyphs_upto(gs.take(g as int), old(self).index as int),
                    0 <= upto <= g,
                decreases run.glyphs@.len() - g,
            {
                proof {
                    assert(gs.take(g as int + 1).drop_last() =~= gs.take(g as int));
                    assert(gs.take(g as int + 1).last() == gs[g as int]);
                }
                if run.glyphs[g].end <= self.index {
                    upto = upto + 1;
                }
                g += 1;
            }
            proof {
                assert(gs.take(gs.len() as int) =~= gs);
                lemma_glyphs_upto_bound(gs, old(self).index as int);
                lemma_glyphs_before_step(runs@, old(self).line as int);
                lemma_glyphs_before_le_total(runs@, old(self).line as int + 1);
            }
            count + upto + self.line
        } else {
            count + self.line
        }
    }
}

/// Counting one more line adds that line's glyphs.
proof fn lemma_glyphs_before_step(runs: Seq<Run>, i: int)
    requires
        0 <= i < runs.len(),
    ensures
        spec_glyphs_before(runs, i + 1)
            == spec_glyphs_before(runs, i) + runs[i].glyphs@.len(),
{
}

/// The glyph count before any line is within the total.
proof fn lemma_glyphs_before_bound(runs: Seq<Run>, line: int)
    ensures
        0 <= spec_glyphs_before(runs, line),
    decreases (if line > runs.len() { runs.len() as int + 1 } else if line > 0 { line }
        else { 0int }),
{
    if line > runs.len() && runs.len() > 0 {
        lemma_glyphs_before_bound(runs, runs.len() as int);
    } else if 0 < line <= runs.len() {
        lemma_glyphs_before_bound(runs, line - 1);
    }
}

/// Beyond the last line, the count clamps to the whole buffer's.
proof fn lemma_glyphs_before_clamp(runs: Seq<Run>, line: int)
    requires
        line >= runs.len(),
    ensures
        spec_glyphs_before(runs, line) == spec_glyphs_before(runs, runs.len() as int),
{
}

/// No more glyphs end before an index than there are glyphs.
proof fn lemma_glyphs_upto_bound(glyphs: Seq<Glyph>, index: int)
    ensures
        0 <= spec_glyphs_upto(glyphs, index) <= glyphs.len(),
    decreases glyphs.len(),
{
    if glyphs.len() > 0 {
        lemma_glyphs_upto_bound(glyphs.drop_last(), index);
    }
}

impl Cursor {
    /// Advance one glyph cluster: within the line by one index; past its
    /// end onto the adjacent line's first boundary cluster, the start of
    /// the next line; past the last line the cursor stays. The pixel
    /// position is re-resolved.
    pub fn move_right(&mut self, runs: &Vec<Run>)
        requires
            buffer_wf(runs@),
        ensures
            final(self).affinity == old(self).affinity,
            old(self).line < runs@.len() ==> {
                let le = spec_line_end(runs@[old(self).line as int]);
                &&& old(self).index < le ==> final(self).line == old(self).line
                    && final(self).index == old(self).index + 1
                &&& old(self).index >= le && old(self).line + 1 < runs@.len() ==> {
                    &&& final(self).line == old(self).line + 1
                    &&& final(self).index == 0
                }
                &&& old(self).index >= le && old(self).line + 1 >= runs@.len()
                    ==> final(self).line == old(self).line
                        && final(self).index == old(self).index
            },
            old(self).line >= runs@.len() ==> final(self).line == old(self).line
                && final(self).index == old(self).index,
            final(self).position == Some((
                spec_position(runs@, final(self).line as int,
                    final(self).index as int).0 as i128,
                spec_position(runs@, final(self).line as int,
                    final(self).index as int).1 as i128,
            )),
    {
        if self.line < runs.len() {
            let run = &runs[self.line];
            let line_end: usize = if run.glyphs.len() > 0 {
                run.glyphs[run.glyphs.len() - 1].end
            } else {
                0
            };
            if self.index < line_end {
                self.index = self.index + 1;
            } else if self.line + 1 < runs.len() {
                self.line = self.line + 1;
                self.index = 0;
            }
        }
        self.position(runs);
    }

    /// Retreat one glyph cluster: within the line by one index, past its
    /// start onto the previous line's boundary; a cursor beyond the last
    /// line clamps to it. The pixel position is re-resolved except when
    /// clamping.
    pub fn move_left(&mut self, runs: &Vec<Run>)
        requires
            buffer_wf(runs@),
        ensures
            final(self).affinity == old(self).affinity,
            old(self).line >= runs@.len() ==> {
                &&& final(self).line == (if runs@.len() > 0 { (runs@.len() - 1) as usize }
                    else { 0usize })
                &&& final(self).index == (if runs@.len() > 0 {
                    runs@[runs@.len() - 1].glyphs@.len() as usize } else { 0usize })
                &&& final(self).position == old(self).position
            },
            old(self).line < runs@.len() ==> {
                &&& old(self).index >= 1 ==> final(self).line == old(self).line
                    && final(self).index == old(self).index - 1
                &&& old(self).index == 0 && old(self).line > 0 ==> {
                    &&& final(self).line == old(self).line - 1
                    &&& final(self).index == (
                        if runs@[old(self).line as int - 1].glyphs@.len() > 0 {
                            runs@[old(self).line as int - 1].glyphs@.len() as usize
                        } else {
                            0usize
                        })
                }
                &&& old(self).index == 0 && old(self).line == 0
                    ==> final(self).line == 0 && final(self).index == 0
                &&& final(self).position == Some((
                    spec_position(runs@, final(self).line as int,
                        final(self).index as int).0 as i128,
                    spec_position(runs@, final(self).line as int,
                        final(self).index as int).1 as i128,
                ))
            },
    {
        let total = runs.len();
        if self.line >= total {
            self.line = if total > 0 { total - 1 } else { 0 };
            self.index = if self.line < total { runs[self.line].glyphs.len() } else { 0 };
            return ;
        }
        if self.index < 1 {
            if self.line > 0 {
                let prev = &runs[self.line - 1];
                self.line = self.line - 1;
                if prev.glyphs.len() > 0 {
                    self.index = prev.glyphs.len();
                }
            }
        } else {
            self.index = self.index - 1;
        }
        self.position(runs);
    }

    /// Advance to the start of the next line. The pixel position is
    /// re-resolved, clamping past the last line.
    pub fn move_newline(&mut self, runs: &Vec<Run>)
        requires
            buffer_wf(runs@),
            old(self).line < usize::MAX,
        ensures
            final(self).line == old(self).line + 1,
            final(self).index == 0,
            final(self).affinity == old(self).affinity,
            final(self).position == Some((
                spec_position(runs@, old(self).line as int + 1, 0).0 as i128,
                spec_position(runs@, old(self).line as int + 1, 0).1 as i128,
            )),
    {
        self.line = self.line + 1;
        self.index = 0;
        self.position(runs);
    }
}

/// Scanning the grapheme bands of a cluster from band `j`: the first band
/// containing `x` decides the character offset, advancing past the
/// grapheme and flipping the affinity when `x` falls in the half away from
/// the text direction.
pub open spec fn spec_scan_bands(
    starts: Seq<usize>, clen: int, egc_x: int, egc_w: int, lev_rtl: bool, x: int, j: int,
) -> Option<(int, Affinity)>
    decreases starts.len() - j,
{
    if j < 0 || j >= starts.len() {
        None
    } else {
        let elen = (if j + 1 < starts.len() { starts[j + 1] as int } else { clen })
            - starts[j];
        if egc_x <= x <= egc_x + egc_w {
            let right_half = x >= egc_x + egc_w / 2;
            if right_half != lev_rtl {
                Some((starts[j] + elen, Affinity::Before))
            } else {
                Some((starts[j] as int, Affinity::After))
            }
        } else {
            spec_scan_bands(starts, clen, egc_x + egc_w, egc_w, lev_rtl, x, j + 1)
        }
    }
}

/// The hit state while scanning a run's glyphs: the selected glyph slot,
/// the character offset within it, and the affinity.
pub open spec fn spec_hit_glyphs(run: Run, x: int, gi: int, sel: int, ch: int, aff: Affinity)
    -> (int, int, Affinity)
    decreases run.glyphs@.len() - gi,
{
    if gi < 0 || gi >= run.glyphs@.len() {
        (sel, ch, aff)
    } else {
        let g = run.glyphs@[gi];
        let sel1 = if gi == 0 && ((run.rtl && x > g.x) || (!run.rtl && x < 0)) {
            0int
        } else {
            sel
        };
        let ch1 = if gi == 0 && ((run.rtl && x > g.x) || (!run.rtl && x < 0)) {
            0int
        } else {
            ch
        };
        if g.x <= x <= g.x + g.w {
            let cluster = run.chars@.subrange(g.start as int, g.end as int);
            let starts = grapheme_starts(cluster);
            let egc_w = if starts.len() > 0 { g.w as int / (starts.len() as int) } else { 0int };
            match spec_scan_bands(starts, cluster.len() as int, g.x as int, egc_w,
                g.rtl, x, 0) {
                Some((c2, a2)) => (gi, c2, a2),
                None => {
                    let right_half = x >= g.x + g.w / 2;
                    if right_half != g.rtl {
                        (gi, cluster.len() as int, Affinity::Before)
                    } else {
                        (gi, ch1, aff)
                    }
                },
            }
        } else {
            spec_hit_glyphs(run, x, gi + 1, sel1, ch1, aff)
        }
    }
}

/// The cursor a horizontal hit on one run resolves to: the selected
/// glyph's start plus the character offset, or past every glyph the end of
/// the line with affinity before it.
pub open spec fn spec_hit_run(run: Run, x: int) -> (int, Affinity) {
    let (sel, ch, aff) = spec_hit_glyphs(run, x, 0, run.glyphs@.len() as int, 0,
        Affinity::After);
    if 0 <= sel < run.glyphs@.len() {
        (run.glyphs@[sel].start + ch, aff)
    } else if run.glyphs@.len() > 0 {
        (run.glyphs@.last().end as int, Affinity::Before)
    } else {
        (0, Affinity::Before)
    }
}

/// The cursor a click resolves to, scanning the runs from `i`: a point
/// above the first line rests at its start, a point within a line band is
/// hit-tested against its glyphs, and a point below the last line rests at
/// its boundary cluster.
pub open spec fn spec_hit_runs(
    runs: Seq<Run>, x: int, y: int, i: int, first: bool, acc: Option<(int, int, Affinity)>,
) -> Option<(int, int, Affinity)>
    decreases runs.len() - i,
{
    if i < 0 || i >= runs.len() {
        acc
    } else {
        let run = runs[i];
        if first && y < run.line_top {
            spec_hit_runs(runs, x, y, i + 1, false,
                Some((run.line_i as int, 0, Affinity::Before)))
        } else if run.line_top <= y < run.line_top + run.line_height {
            let (idx, aff) = spec_hit_run(run, x);
            Some((i, idx, aff))
        } else if i == runs.len() - 1 && y > run.line_y {
            let below = if run.glyphs@.len() > 0 {
                if run.rtl {
                    (run.line_i as int, run.glyphs@.last().end as int, Affinity::Before)
                } else {
                    (run.line_i as int, run.glyphs@.last().start as int, Affinity::After)
                }
            } else {
                (run.line_i as int, 0, Affinity::Before)
            };
            spec_hit_runs(runs, x, y, i + 1, first, Some(below))
        } else {
            spec_hit_runs(runs, x, y, i + 1, first, acc)
        }
    }
}

/// The cursor a click at `(x, y)` resolves to over the runs.
pub open spec fn spec_hit(runs: Seq<Run>, x: int, y: int) -> Option<(int, int, Affinity)> {
    spec_hit_runs(runs, x, y, 0, true, None)
}

/// Scan the grapheme bands of one cluster.
fn scan_bands(
    starts: &Vec<usize>, clen: usize, gx: i128, gw: i128, egc_w: i128, lev_rtl: bool,
    x: i128,
) -> (r: Option<(usize, Affinity)>)
    requires
        forall|i: int| 0 <= i < starts@.len() ==> (#[trigger] starts@[i]) < clen,
        forall|i: int| 0 <= i < starts@.len() - 1
            ==> (#[trigger] starts@[i]) < starts@[i + 1],
        0 <= gx <= C_RUN,
        0 < gw <= C_RUN,
        0 <= egc_w,
        (starts@.len() as int) * (egc_w as int) <= gw,
        -C_RUN <= x <= C_RUN,
        clen <= 0xFFFF_FFFF_FFFF_FFFF,
    ensures
        ({
            let sr = spec_scan_bands(starts@, clen as int, gx as int, egc_w as int,
                lev_rtl, x as int, 0);
            match r {
                Some((c, a)) => sr == Some((c as int, a)) && c <= clen,
                None => sr is None,
            }
        }),
{
    let mut j: usize = 0;
    let mut egc_x: i128 = gx;
    while j < starts.len()
        invariant
            j <= starts@.len(),
            forall|i: int| 0 <= i < starts@.len() ==> (#[trigger] starts@[i]) < clen,
            forall|i: int| 0 <= i < starts@.len() - 1
                ==> (#[trigger] starts@[i]) < starts@[i + 1],
            0 <= gx <= C_RUN,
            0 < gw <= C_RUN,
            0 <= egc_w,
            (starts@.len() as int) * (egc_w as int) <= gw,
            clen <= 0xFFFF_FFFF_FFFF_FFFF,
            egc_x == gx + (j as int) * (egc_w as int),
            gx <= egc_x,
            egc_x + (starts@.len() as int - j as int) * (egc_w as int) <= gx + gw,
            spec_scan_bands(starts@, clen as int, gx as int, egc_w as int, lev_rtl,
                x as int, 0) == spec_scan_bands(starts@, clen as int, egc_x as int,
                egc_w as int, lev_rtl, x as int, j as int),
        decreases starts@.len() - j,
    {
        proof {
            vstd::arithmetic::mul::lemma_mul_is_distributive_sub_other_way(
                egc_w as int, starts@.len() as int - j as int, 1);
            assert((1int) * (egc_w as int) == egc_w as int)
                by (nonlinear_arith);
            vstd::arithmetic::mul::lemma_mul_is_distributive_add_other_way(
                egc_w as int, j as int, 1);
        }
        let elen: usize = if j + 1 < starts.len() {
            starts[j + 1] - starts[j]
        } else {
            clen - starts[j]
        };
        if egc_x <= x && x <= egc_x + egc_w {
            let right_half = x >= egc_x + egc_w / 2;
            if right_half != lev_rtl {
                return Some((starts[j] + elen, Affinity::Before));
            } else {
                return Some((starts[j], Affinity::After));
            }
        }
        egc_x = egc_x + egc_w;
        j += 1;
    }
    None
}

/// Scan the glyphs of one run for a horizontal hit.
fn hit_glyphs(run: &Run, x: i128) -> (r: (usize, usize, Affinity))
    requires
        run.wf(),
        -C_RUN <= x <= C_RUN,
    ensures
        ({
            let (sel, ch, aff) = spec_hit_glyphs(*run, x as int, 0,
                run.glyphs@.len() as int, 0, Affinity::After);
            sel == r.0 as int && ch == r.1 as int && aff == r.2
        }),
        r.0 < run.glyphs@.len()
            ==> run.glyphs@[r.0 as int].start + r.1 <= run.chars@.len(),
{
    let mut gi: usize = 0;
    let mut sel: usize = run.glyphs.len();
    let mut ch: usize = 0;
    let mut aff = Affinity::After;
    while gi < run.glyphs.len()
        invariant
            run.wf(),
            -C_RUN <= x <= C_RUN,
            gi <= run.glyphs@.len(),
            ch == 0,
            spec_hit_glyphs(*run, x as int, 0, run.glyphs@.len() as int, 0,
                Affinity::After) == spec_hit_glyphs(*run, x as int, gi as int,
                sel as int, ch as int, aff),
        decreases run.glyphs@.len() - gi,
    {
        let g = run.glyphs[gi];
        if gi == 0 && ((run.rtl && x > g.x) || (!run.rtl && x < 0)) {
            sel = 0;
            ch = 0;
        }
        if g.x <= x && x <= g.x + g.w {
            let cluster = slice_chars(&run.chars, g.start, g.end);
            let starts = grapheme_char_starts(&cluster);
            let total = starts.len();
            let egc_w: i128 = if total > 0 { g.w / (total as i128) } else { 0 };
            proof {
                if total > 0 {
                    vstd::arithmetic::div_mod::lemma_fundamental_div_mod(
                        g.w as int, total as int);
                    vstd::arithmetic::div_mod::lemma_div_pos_is_pos(
                        g.w as int, total as int);
                    assert((total as int) * (egc_w as int) <= g.w) by (nonlinear_arith)
                        requires g.w as int == (total as int) * (egc_w as int)
                            + g.w as int % (total as int)
                            && g.w as int % (total as int) >= 0;
                    vstd::arithmetic::div_mod::lemma_mod_bound(g.w as int, total as int);
                }
            }
            if total > 0 {
                match scan_bands(&starts, cluster.len(), g.x, g.w, egc_w, g.rtl, x) {
                    Some((c2, a2)) => {
                        return (gi, c2, a2);
                    },
                    None => {
                        let right_half = x >= g.x + g.w / 2;
                        if right_half != g.rtl {
                            return (gi, cluster.len(), Affinity::Before);
                        } else {
                            return (gi, ch, aff);
                        }
                    },
                }
            } else {
                proof {
                    assert(spec_scan_bands(starts@, cluster@.len() as int, g.x as int,
                        egc_w as int, g.rtl, x as int, 0) is None);
                }
                let right_half = x >= g.x + g.w / 2;
                if right_half != g.rtl {
                    return (gi, cluster.len(), Affinity::Before);
                } else {
                    return (gi, ch, aff);
                }
            }
        }
        gi += 1;
    }
    (sel, ch, aff)
}

impl Cursor {
    /// The cursor a click at `(x, y)` resolves to: the line whose band
    /// holds `y` is hit-tested against its glyph bands, subdividing a
    /// cluster proportionally among its graphemes; a point above the first
    /// line rests at its start; a point below the last line rests at its
    /// boundary cluster. A click outside an empty layout resolves to
    /// nothing.
    pub fn new_from_click(runs: &Vec<Run>, x: i128, y: i128) -> (r: Option<Cursor>)
        requires
            buffer_wf(runs@),
            -C_RUN <= x <= C_RUN,
            -C_RUN <= y <= C_RUN,
        ensures
            ({
                let sr = spec_hit(runs@, x as int, y as int);
                match r {
                    Some(c) => {
                        &&& sr == Some((c.line as int, c.index as int, c.affinity))
                        &&& c.position is None
                    },
                    None => sr is None,
                }
            }),
    {
        let mut acc: Option<Cursor> = None;
        let mut first = true;
        let mut i: usize = 0;
        while i < runs.len()
            invariant
                buffer_wf(runs@),
                -C_RUN <= x <= C_RUN,
                -C_RUN <= y <= C_RUN,
                i <= runs@.len(),
                ({
                    let sacc = match acc {
                        Some(c) => Some((c.line as int, c.index as int, c.affinity)),
                        None => None,
                    };
                    &&& spec_hit_runs(runs@, x as int, y as int, 0, true, None)
                        == spec_hit_runs(runs@, x as int, y as int, i as int,
                            first, sacc)
                    &&& acc matches Some(c) ==> c.position is None
                }),
            decreases runs@.len() - i,
        {
            let run = &runs[i];
            if first && y < run.line_top {
                first = false;
                acc = Some(Cursor { line: run.line_i, index: 0,
                    affinity: Affinity::Before, position: None });
            } else if run.line_top <= y && y < run.line_top + run.line_height {
                let (sel, ch, aff) = hit_glyphs(run, x);
                let nchars = run.chars.len();
                proof {
                    assert(run.chars@.len() == nchars);
                }
                let c = if sel < run.glyphs.len() {
                    Cursor { line: i, index: run.glyphs[sel].start + ch,
                        affinity: aff, position: None }
                } else if run.glyphs.len() > 0 {
                    Cursor { line: i, index: run.glyphs[run.glyphs.len() - 1].end,
                        affinity: Affinity::Before, position: None }
                } else {
                    Cursor { line: i, index: 0, affinity: Affinity::Before,
                        position: None }
                };
                return Some(c);
            } else if i == runs.len() - 1 && y > run.line_y {
                let below = if run.glyphs.len() > 0 {
                    if run.rtl {
                        Cursor { line: run.line_i,
                            index: run.glyphs[run.glyphs.len() - 1].end,
                            affinity: Affinity::Before, position: None }
                    } else {
                        Cursor { line: run.line_i,
                            index: run.glyphs[run.glyphs.len() - 1].start,
                            affinity: Affinity::After, position: None }
                    }
                } else {
                    Cursor { line: run.line_i, index: 0, affinity: Affinity::Before,
                        position: None }
                };
                acc = Some(below);
            }
            i += 1;
        }
        acc
    }
}

/// Whether every run and glyph of the buffer runs left to right.
pub open spec fn ltr_runs(runs: Seq<Run>) -> bool {
    forall|i: int| 0 <= i < runs.len() ==> !(#[trigger] runs[i]).rtl
        && forall|j: int| 0 <= j < runs[i].glyphs@.len()
            ==> !(#[trigger] runs[i].glyphs@[j]).rtl
}

/// Whether an index is a cluster boundary of a run reachable by the
/// cursor round trip: the start of a cluster other than the first, or the
/// end of the line.
pub open spec fn is_round_trip_boundary(run: Run, index: int) -> bool {
    ||| exists|k: int| 1 <= k < run.glyphs@.len()
        && index == (#[trigger] run.glyphs@[k]).start
    ||| index == spec_line_end(run)
}

/// Ends never pass later starts: clusters are ordered.
proof fn lemma_ends_le_starts(run: Run, j: int, k: int)
    requires
        run.wf(),
        0 <= j < k < run.glyphs@.len(),
    ensures
        run.glyphs@[j].end <= run.glyphs@[k].start,
    decreases k - j,
{
    if j + 1 < k {
        lemma_ends_le_starts(run, j + 1, k);
    }
}

/// Glyph bands are ordered: an earlier band ends where a later one
/// begins, or before it.
proof fn lemma_bands_ordered(run: Run, j: int, k: int)
    requires
        run.wf(),
        0 <= j < k < run.glyphs@.len(),
    ensures
        run.glyphs@[j].x + run.glyphs@[j].w <= run.glyphs@[k].x,
    decreases k - j,
{
    if j + 1 < k {
        lemma_bands_ordered(run, j + 1, k);
    }
}

/// The pen position of a cluster start is the cluster's band edge: from
/// any suffix before it, the summed widths reach its left edge.
proof fn lemma_pos_x_at_start(run: Run, k: int, index: int, t: int)
    requires
        run.wf(),
        0 <= t <= k < run.glyphs@.len(),
        index == run.glyphs@[k].start,
    ensures
        spec_pos_x(run.glyphs@.skip(t), index) == run.glyphs@[k].x - run.glyphs@[t].x,
    decreases k - t,
{
    let gs = run.glyphs@;
    assert(gs.skip(t)[0] == gs[t]);
    if t == k {
        assert(gs[k].start <= index < gs[k].end);
    } else {
        lemma_ends_le_starts(run, t, k);
        assert(!(gs[t].start <= index < gs[t].end));
        assert(gs.skip(t).skip(1) =~= gs.skip(t + 1));
        lemma_pos_x_at_start(run, k, index, t + 1);
        assert(gs[t].x + gs[t].w == gs[t + 1].x);
    }
}

/// The pen position of the line end is the full advance width.
proof fn lemma_pos_x_at_end(run: Run, index: int, t: int)
    requires
        run.wf(),
        run.glyphs@.len() > 0,
        0 <= t < run.glyphs@.len(),
        index == spec_line_end(run),
    ensures
        spec_pos_x(run.glyphs@.skip(t), index)
            == run.glyphs@.last().x + run.glyphs@.last().w - run.glyphs@[t].x,
    decreases run.glyphs@.len() - t,
{
    let gs = run.glyphs@;
    assert(gs.skip(t)[0] == gs[t]);
    if t == gs.len() - 1 {
        assert(!(gs[t].start <= index < gs[t].end));
        assert(gs.skip(t).skip(1) =~= gs.skip(t + 1));
        assert(gs.skip(t + 1) =~= Seq::<Glyph>::empty());
        assert(spec_pos_x(gs.skip(t + 1), index) == 0);
        assert(spec_pos_x(gs.skip(t), index) == gs[t].w + 0);
        assert(gs.last() == gs[t]);
    } else {
        lemma_ends_le_starts(run, t, gs.len() - 1);
        assert(!(gs[t].start <= index < gs[t].end));
        assert(gs.skip(t).skip(1) =~= gs.skip(t + 1));
        lemma_pos_x_at_end(run, index, t + 1);
        assert(gs[t].x + gs[t].w == gs[t + 1].x);
    }
}

/// A band scan at the right edge of a left-to-right glyph either finds
/// nothing or lands one past the whole cluster, attaching before it.
proof fn lemma_scan_bands_right_edge(
    starts: Seq<usize>, clen: int, gx: int, gw: int, egc_w: int, x: int, j: int,
)
    requires
        x == gx + gw,
        gw > 0,
        egc_w >= 0,
        (starts.len() as int) * egc_w <= gw,
        0 <= j,
    ensures
        ({
            let sb = spec_scan_bands(starts, clen, gx + j * egc_w, egc_w, false, x, j);
            sb is None || sb == Some((clen, Affinity::Before))
        }),
    decreases starts.len() - j,
{
    let egc_x = gx + j * egc_w;
    if j < starts.len() {
        if egc_x <= x <= egc_x + egc_w {
            assert(gw <= (j + 1) * egc_w) by {
                vstd::arithmetic::mul::lemma_mul_is_distributive_add_other_way(
                    egc_w, j, 1);
            }
            assert((j + 1) * egc_w <= (starts.len() as int) * egc_w) by {
                vstd::arithmetic::mul::lemma_mul_inequality(
                    j + 1, starts.len() as int, egc_w);
            }
            assert(j + 1 == starts.len() as int) by {
                if j + 1 < starts.len() as int {
                    if egc_w > 0 {
                        assert((j + 1) * egc_w < (starts.len() as int) * egc_w) by {
                            vstd::arithmetic::mul::lemma_mul_strict_inequality(
                                j + 1, starts.len() as int, egc_w);
                        }
                    } else {
                        assert((j + 1) * egc_w == 0) by (nonlinear_arith)
                            requires egc_w == 0;
                    }
                }
            }
            assert(j * egc_w + egc_w == (j + 1) * egc_w) by {
                vstd::arithmetic::mul::lemma_mul_is_distributive_add_other_way(
                    egc_w, j, 1);
            }
            assert((j + 1) * egc_w == gw);
            assert(x - egc_x == egc_w);
            assert(egc_w / 2 <= egc_w) by {
                vstd::arithmetic::div_mod::lemma_div_nonincreasing(egc_w, 2);
            }
            assert(x >= egc_x + egc_w / 2);
        } else {
            assert(gx + (j + 1) * egc_w == egc_x + egc_w) by {
                vstd::arithmetic::mul::lemma_mul_is_distributive_add_other_way(
                    egc_w, j, 1);
            }
            lemma_scan_bands_right_edge(starts, clen, gx, gw, egc_w, x, j + 1);
        }
    }
}

/// A glyph scan passes over glyphs whose bands lie wholly left of the
/// point, in a left-to-right run at a nonnegative position.
proof fn lemma_hit_glyphs_pass(run: Run, x: int, j: int, k: int, sel: int, ch: int,
    aff: Affinity)
    requires
        run.wf(),
        !run.rtl,
        x >= 0,
        0 <= j <= k < run.glyphs@.len(),
        forall|t: int| j <= t < k ==> (#[trigger] run.glyphs@[t]).x
            + run.glyphs@[t].w < x,
    ensures
        spec_hit_glyphs(run, x, j, sel, ch, aff)
            == spec_hit_glyphs(run, x, k, sel, ch, aff),
    decreases k - j,
{
    if j < k {
        let g = run.glyphs@[j];
        assert(!(g.x <= x <= g.x + g.w));
        lemma_hit_glyphs_pass(run, x, j + 1, k, sel, ch, aff);
    }
}

/// A hit at the right edge of a left-to-right glyph resolves to the end
/// of its cluster, attaching before it.
proof fn lemma_hit_run_right_edge(run: Run, k: int)
    requires
        run.wf(),
        !run.rtl,
        forall|j: int| 0 <= j < run.glyphs@.len()
            ==> !(#[trigger] run.glyphs@[j]).rtl,
        0 <= k < run.glyphs@.len(),
    ensures
        spec_hit_run(run, run.glyphs@[k].x + run.glyphs@[k].w)
            == (run.glyphs@[k].end as int, Affinity::Before),
{
    let gs = run.glyphs@;
    let g = gs[k];
    let x = g.x + g.w;
    assert(x >= 0);
    assert forall|t: int| 0 <= t < k implies (#[trigger] gs[t]).x + gs[t].w < x by {
        lemma_bands_ordered(run, t, k);
    }
    lemma_hit_glyphs_pass(run, x, 0, k, gs.len() as int, 0, Affinity::After);
    let cluster = run.chars@.subrange(g.start as int, g.end as int);
    let starts = grapheme_starts(cluster);
    let egc_w = if starts.len() > 0 { g.w as int / (starts.len() as int) } else { 0int };
    if starts.len() > 0 {
        vstd::arithmetic::div_mod::lemma_div_pos_is_pos(g.w as int, starts.len() as int);
        assert((starts.len() as int) * egc_w <= g.w) by {
            vstd::arithmetic::div_mod::lemma_fundamental_div_mod(
                g.w as int, starts.len() as int);
            vstd::arithmetic::div_mod::lemma_mod_bound(g.w as int, starts.len() as int);
            assert(g.w as int == (starts.len() as int) * egc_w
                + g.w as int % (starts.len() as int));
        }
        assert(g.x as int + 0 * egc_w == g.x as int) by (nonlinear_arith);
        lemma_scan_bands_right_edge(starts, cluster.len() as int, g.x as int,
            g.w as int, egc_w, x, 0);
    }
    assert(g.w / 2 <= g.w) by {
        vstd::arithmetic::div_mod::lemma_div_nonincreasing(g.w as int, 2);
    }
    assert(x >= g.x + g.w / 2);
    assert(cluster.len() == g.end - g.start);
}

/// Line tops never decrease, and a later line starts at or below the end
/// of an earlier band.
proof fn lemma_tops_ordered(runs: Seq<Run>, i: int, j: int)
    requires
        buffer_wf(runs),
        0 <= i <= j < runs.len(),
    ensures
        runs[i].line_top <= runs[j].line_top,
        i < j ==> runs[i].line_top + runs[i].line_height <= runs[j].line_top,
    decreases j - i,
{
    if i < j {
        lemma_tops_ordered(runs, i + 1, j);
    }
}

/// The run scan of a hit at a line band's top passes the earlier runs and
/// resolves on that line.
proof fn lemma_hit_runs_reaches_line(runs: Seq<Run>, x: int, y: int, line: int, i: int,
    first: bool, acc: Option<(int, int, Affinity)>)
    requires
        buffer_wf(runs),
        0 <= i <= line < runs.len(),
        y == runs[line].line_top,
    ensures
        spec_hit_runs(runs, x, y, i, first, acc) == Some((line,
            spec_hit_run(runs[line], x).0, spec_hit_run(runs[line], x).1)),
    decreases line - i,
{
    let run = runs[i];
    if i == line {
        assert(run.line_top <= y < run.line_top + run.line_height);
    } else {
        lemma_tops_ordered(runs, i, line);
        assert(!(first && y < run.line_top));
        lemma_tops_ordered(runs, i + 1, line);
        assert(!(run.line_top <= y < run.line_top + run.line_height)) by {
            assert(run.line_top + run.line_height <= runs[line].line_top);
        }
        assert(i != runs.len() - 1);
        lemma_hit_runs_reaches_line(runs, x, y, line, i + 1, first, acc);
    }
}

/// Cursor round trip: hit-testing the pixel position of a cursor that
/// stands on a cluster boundary of a left-to-right layout returns a
/// cursor on the same line at the same index; only the affinity may
/// differ, at that boundary.
pub proof fn lemma_cursor_round_trip(runs: Seq<Run>, line: int, index: int)
    requires
        buffer_wf(runs),
        ltr_runs(runs),
        0 <= line < runs.len(),
        is_round_trip_boundary(runs[line], index),
    ensures
        ({
            let (px, py) = spec_position(runs, line, index);
            match spec_hit(runs, px, py) {
                Some((l2, i2, _)) => l2 == line && i2 == index,
                None => false,
            }
        }),
{
    let run = runs[line];
    let gs = run.glyphs@;
    let (px, py) = spec_position(runs, line, index);
    assert(py == run.line_top);
    assert(gs.skip(0) =~= gs);
    lemma_hit_runs_reaches_line(runs, px, py, line, 0, true, None);
    assert(!run.rtl);
    assert(forall|j: int| 0 <= j < gs.len() ==> !(#[trigger] gs[j]).rtl);
    if exists|k: int| 1 <= k < gs.len() && index == (#[trigger] gs[k]).start {
        let k = choose|k: int| 1 <= k < gs.len() && index == (#[trigger] gs[k]).start;
        lemma_pos_x_at_start(run, k, index, 0);
        assert(gs[0].x == 0);
        assert(px == gs[k].x);
        assert(gs[k - 1].x + gs[k - 1].w == gs[k].x);
        lemma_hit_run_right_edge(run, k - 1);
        assert(gs[k - 1].end == gs[k].start);
    } else {
        assert(index == spec_line_end(run));
        if gs.len() > 0 {
            lemma_pos_x_at_end(run, index, 0);
            assert(gs[0].x == 0);
            assert(px == gs.last().x + gs.last().w);
            lemma_hit_run_right_edge(run, gs.len() - 1);
        } else {
            assert(index == 0);
            assert(spec_pos_x(gs, index) == 0);
            assert(spec_hit_run(run, px) == (0int, Affinity::Before));
        }
    }
}

/// The glyphs before a line are exactly the total of the prefix of runs
/// before it.
proof fn lemma_glyphs_before_as_take(runs: Seq<Run>, line: int)
    ensures
        spec_glyphs_before(runs, line) == spec_total_glyphs(
            runs.take(if line < 0 { 0 } else if line > runs.len() { runs.len() as int }
                else { line })),
    decreases (if line > runs.len() { runs.len() as int + 1 } else if line > 0 { line }
        else { 0int }),
{
    if line <= 0 || runs.len() == 0 {
        assert(runs.take(0) =~= Seq::<Run>::empty());
        if line > runs.len() {
            lemma_glyphs_before_as_take(runs, runs.len() as int);
        }
    } else if line > runs.len() {
        lemma_glyphs_before_as_take(runs, runs.len() as int);
    } else {
        lemma_glyphs_before_as_take(runs, line - 1);
        assert(runs.take(line).drop_last() =~= runs.take(line - 1));
        assert(runs.take(line).last() == runs[line - 1]);
    }
}

/// The total of a prefix never exceeds the total of the whole.
proof fn lemma_total_glyphs_take_le(runs: Seq<Run>, k: int)
    requires
        0 <= k <= runs.len(),
    ensures
        spec_total_glyphs(runs.take(k)) <= spec_total_glyphs(runs),
    decreases runs.len() - k,
{
    if k == runs.len() {
        assert(runs.take(k) =~= runs);
    } else {
        lemma_total_glyphs_take_le(runs, k + 1);
        assert(runs.take(k + 1).drop_last() =~= runs.take(k));
        assert(runs.take(k + 1).last() == runs[k]);
    }
}

/// The glyphs before a line never exceed the buffer's total, and the
/// count stays nonnegative.
proof fn lemma_glyphs_before_le_total(runs: Seq<Run>, line: int)
    ensures
        0 <= spec_glyphs_before(runs, line) <= spec_total_glyphs(runs),
{
    lemma_glyphs_before_as_take(runs, line);
    let k = if line < 0 { 0int } else if line > runs.len() { runs.len() as int }
        else { line };
    lemma_total_glyphs_take_le(runs, k);
    lemma_total_glyphs_nonneg(runs.take(k));
}

/// The total glyph count is nonnegative.
proof fn lemma_total_glyphs_nonneg(runs: Seq<Run>)
    ensures
        spec_total_glyphs(runs) >= 0,
    decreases runs.len(),
{
    if runs.len() > 0 {
        lemma_total_glyphs_nonneg(runs.drop_last());
    }
}


} // verus!
