use wgpu_canvas::cursor::{Affinity, Cursor, Glyph, Run};

/// One line: "ab", each glyph ten units wide.
fn run_ab(line_i: usize, top: i128) -> Run {
    Run {
        line_i,
        line_top: top,
        line_height: 12,
        line_y: top + 10,
        rtl: false,
        chars: vec!['a', 'b'],
        glyphs: vec![
            Glyph { start: 0, end: 1, x: 0, w: 10, rtl: false },
            Glyph { start: 1, end: 2, x: 10, w: 10, rtl: false },
        ],
    }
}

fn two_lines() -> Vec<Run> {
    vec![run_ab(0, 0), run_ab(1, 12)]
}

#[test]
fn click_in_left_half_rests_before_the_glyph() {
    let runs = two_lines();
    let c = Cursor::new_from_click(&runs, 2, 5).unwrap();
    assert_eq!((c.line, c.index), (0, 0));
}

#[test]
fn click_in_right_half_advances_past_the_cluster() {
    let runs = two_lines();
    let c = Cursor::new_from_click(&runs, 8, 5).unwrap();
    assert_eq!((c.line, c.index), (0, 1));
    assert_eq!(c.affinity, Affinity::Before);
}

#[test]
fn click_above_everything_rests_at_the_start() {
    let runs = two_lines();
    let c = Cursor::new_from_click(&runs, 5, -3).unwrap();
    assert_eq!((c.line, c.index), (0, 0));
}

#[test]
fn click_on_second_band_lands_on_second_line() {
    let runs = two_lines();
    let c = Cursor::new_from_click(&runs, 12, 15).unwrap();
    assert_eq!(c.line, 1);
}

#[test]
fn click_on_empty_layout_resolves_to_nothing() {
    let runs: Vec<Run> = Vec::new();
    assert!(Cursor::new_from_click(&runs, 5, 5).is_none());
}

#[test]
fn round_trip_at_cluster_boundary() {
    let runs = two_lines();
    let mut cur = Cursor::new();
    cur.line = 1;
    cur.index = 1;
    cur.position(&runs);
    let (px, py) = cur.position.unwrap();
    assert_eq!((px, py), (10, 12));
    let back = Cursor::new_from_click(&runs, px, py).unwrap();
    assert_eq!((back.line, back.index), (cur.line, cur.index));
}

#[test]
fn round_trip_at_line_end() {
    let runs = two_lines();
    let mut cur = Cursor::new();
    cur.index = 2;
    cur.position(&runs);
    let (px, py) = cur.position.unwrap();
    assert_eq!((px, py), (20, 0));
    let back = Cursor::new_from_click(&runs, px, py).unwrap();
    assert_eq!((back.line, back.index), (0, 2));
    assert_eq!(back.affinity, Affinity::Before);
}

#[test]
fn move_right_steps_and_crosses_lines() {
    let runs = two_lines();
    let mut cur = Cursor::new();
    cur.move_right(&runs);
    assert_eq!((cur.line, cur.index), (0, 1));
    cur.move_right(&runs);
    assert_eq!((cur.line, cur.index), (0, 2));
    // past the line's end, the cursor crosses to the next line's start,
    // its first boundary cluster
    cur.move_right(&runs);
    assert_eq!((cur.line, cur.index), (1, 0));
    cur.move_right(&runs);
    cur.move_right(&runs);
    // past the last line it stays
    cur.move_right(&runs);
    assert_eq!((cur.line, cur.index), (1, 2));
}

#[test]
fn move_left_steps_and_clamps() {
    let runs = two_lines();
    let mut cur = Cursor::new();
    cur.line = 1;
    cur.index = 1;
    cur.move_left(&runs);
    assert_eq!((cur.line, cur.index), (1, 0));
    cur.move_left(&runs);
    assert_eq!((cur.line, cur.index), (0, 2));
    let mut beyond = Cursor::new();
    beyond.line = 9;
    beyond.move_left(&runs);
    assert_eq!((beyond.line, beyond.index), (1, 2));
}

#[test]
fn move_newline_goes_to_next_line_start() {
    let runs = two_lines();
    let mut cur = Cursor::new();
    cur.index = 2;
    cur.move_newline(&runs);
    assert_eq!((cur.line, cur.index), (1, 0));
    assert_eq!(cur.position.unwrap(), (0, 12));
}

#[test]
fn get_index_counts_glyphs_and_breaks() {
    let runs = two_lines();
    let mut cur = Cursor::new();
    cur.line = 1;
    cur.index = 1;
    // two glyphs on the first line, one ended cluster on the second,
    // plus one line break
    assert_eq!(cur.get_index(&runs), 4);
}

#[test]
fn cluster_subdivides_by_grapheme_count() {
    // one glyph spans two characters that segment into two graphemes, so
    // its band splits in half: a click in the second half's left part
    // rests between the graphemes
    let run = Run {
        line_i: 0,
        line_top: 0,
        line_height: 12,
        line_y: 10,
        rtl: false,
        chars: vec!['x', 'y'],
        glyphs: vec![Glyph { start: 0, end: 2, x: 0, w: 20, rtl: false }],
    };
    let runs = vec![run];
    let c = Cursor::new_from_click(&runs, 12, 5).unwrap();
    assert_eq!((c.line, c.index), (0, 1));
    assert_eq!(c.affinity, Affinity::After);
    // and a click in its right part advances past the second grapheme
    let c = Cursor::new_from_click(&runs, 17, 5).unwrap();
    assert_eq!((c.line, c.index), (0, 2));
    assert_eq!(c.affinity, Affinity::Before);
}

#[test]
fn position_clamps_past_the_last_line() {
    let runs = two_lines();
    let mut cur = Cursor::new();
    cur.line = 5;
    cur.position(&runs);
    assert_eq!(cur.position.unwrap(), (0, 24));
}
