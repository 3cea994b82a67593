use wgpu_canvas::color::Color;
use wgpu_canvas::text::{Align, Font, GlyphUnits, Line, Span, Text};

/// A face whose every listed glyph is ten units wide, with no bearings.
fn uniform_font() -> Font {
    let mut glyphs: Vec<(char, GlyphUnits)> = Vec::new();
    for c in "HeloWrd.abc ".chars() {
        glyphs.push((
            c,
            GlyphUnits { advance: 10, xmin: 0, ymin: 0, width: 8, height: 8 },
        ));
    }
    Font { id: 1, units_per_em: 1, ascent: 8, descent: 0, new_line_size: 12, glyphs }
}

fn span(text: &str) -> Span {
    Span::new(
        text.chars().collect(),
        1,
        None,
        uniform_font(),
        Color(255, 255, 255, 255),
        0,
    )
}

fn hello_world(width: Option<i64>, align: Align, max_lines: Option<u32>) -> Text {
    Text::new(vec![span("Hello World")], width, align, max_lines)
}

fn widths(lines: &Vec<Line>) -> Vec<i128> {
    lines.iter().map(|l| l.width).collect()
}

fn chars_of(line: &Line) -> String {
    line.chars.iter().map(|c| c.ch).collect()
}

#[test]
fn wrap_boundary_keeps_exact_fit() {
    // each glyph is 10 units wide: "Hello" is exactly 50 and fits the
    // bound, while the following space would reach 60 and wraps
    let text = hello_world(Some(50), Align::Left, None);
    let lines = text.lines();
    assert_eq!(lines.len(), 3);
    assert_eq!(chars_of(&lines[0]), "Hello");
    assert_eq!(chars_of(&lines[1]), " ");
    assert_eq!(chars_of(&lines[2]), "World");
    assert_eq!(widths(&lines), vec![50, 10, 50]);
    let xs: Vec<i128> = lines[0].chars.iter().map(|c| c.x).collect();
    assert_eq!(xs, vec![0, 10, 20, 30, 40]);
}

#[test]
fn wrap_one_unit_narrower_breaks_earlier() {
    let text = hello_world(Some(49), Align::Left, None);
    let lines = text.lines();
    assert_eq!(chars_of(&lines[0]), "Hell");
}

#[test]
fn unbounded_text_stays_on_one_line() {
    let text = hello_world(None, Align::Left, None);
    let lines = text.lines();
    assert_eq!(lines.len(), 1);
    assert_eq!(chars_of(&lines[0]), "Hello World");
    assert_eq!(lines[0].width, 110);
    assert_eq!(lines[0].height, 12);
}

#[test]
fn layout_is_idempotent() {
    let text = hello_world(Some(50), Align::Center, Some(2));
    assert_eq!(text.lines(), text.lines());
}

#[test]
fn center_alignment_shifts_by_half_slack() {
    let text = hello_world(None, Align::Center, None);
    // no bound: centering shifts nothing
    assert_eq!(text.lines()[0].chars[0].x, 0);
    let text = Text::new(vec![span("ab")], Some(50), Align::Center, None);
    let lines = text.lines();
    // line width 20 under bound 50: shift is exactly (50 - 20) / 2
    assert_eq!(lines[0].chars[0].x, 15);
    assert_eq!(lines[0].chars[1].x, 25);
    assert_eq!(lines[0].width, 20 + 15);
}

#[test]
fn right_alignment_shifts_by_whole_slack() {
    let text = Text::new(vec![span("ab")], Some(50), Align::Right, None);
    let lines = text.lines();
    assert_eq!(lines[0].chars[0].x, 30);
    assert_eq!(lines[0].chars[1].x, 40);
}

#[test]
fn explicit_newline_breaks_lines() {
    let text = Text::new(vec![span("a\nb")], None, Align::Left, None);
    let lines = text.lines();
    assert_eq!(lines.len(), 2);
    assert_eq!(chars_of(&lines[0]), "a");
    assert_eq!(chars_of(&lines[1]), "b");
    // a character's top is the lines above it plus its own line height,
    // corrected by its glyph box: 12 - 8 on the first line, 24 - 8 below
    assert_eq!(lines[0].chars[0].y, 4);
    assert_eq!(lines[1].chars[0].y, 16);
}

#[test]
fn empty_line_still_takes_line_height() {
    let text = Text::new(vec![span("")], None, Align::Left, None);
    let lines = text.lines();
    assert_eq!(lines.len(), 1);
    assert_eq!(lines[0].chars.len(), 0);
    assert_eq!(lines[0].height, 12);
}

#[test]
fn truncation_drops_tail_and_appends_ellipsis() {
    let text = hello_world(Some(50), Align::Left, Some(1));
    let lines = text.lines();
    assert_eq!(lines.len(), 1);
    // "Hello" loses its last three characters and gains three dots
    assert_eq!(chars_of(&lines[0]), "He...");
    assert_eq!(lines[0].width, 50 + 30);
}

#[test]
fn size_is_widest_line_and_summed_heights() {
    let text = hello_world(Some(50), Align::Left, None);
    assert_eq!(text.size(), (50, 36));
}

#[test]
fn custom_line_height_overrides_font() {
    let mut sp = span("a");
    sp.line_height = Some(20);
    let text = Text::new(vec![sp], None, Align::Left, None);
    assert_eq!(text.lines()[0].height, 20);
}

#[test]
fn kerning_spaces_characters_apart() {
    let mut sp = span("ab");
    sp.kerning = 3;
    let text = Text::new(vec![sp], None, Align::Left, None);
    let lines = text.lines();
    assert_eq!(lines[0].chars[1].x, 13);
    assert_eq!(lines[0].width, 26);
}

#[test]
fn click_places_cursor_by_half_glyph() {
    let mut text = hello_world(None, Align::Left, None);
    // x = 23 is in the left half of the third glyph
    text.cursor_click(23, 5);
    assert_eq!(text.cursor, Some(2));
    // x = 27 is in its right half and advances past it
    text.cursor_click(27, 5);
    assert_eq!(text.cursor, Some(3));
}

#[test]
fn click_below_everything_rests_at_the_end() {
    let mut text = hello_world(None, Align::Left, None);
    text.cursor_click(5, 1000);
    assert_eq!(text.cursor, Some(11));
}

#[test]
fn cursor_position_resolves_on_the_line() {
    let mut text = hello_world(None, Align::Left, None);
    text.cursor = Some(2);
    assert_eq!(text.cursor_position(), (20, 0));
    // one past the last character rests at the line's full width
    text.cursor = Some(11);
    assert_eq!(text.cursor_position(), (110, 0));
}
