use crossterm::style::Attribute;
use mamediff::canvas::{
    rows_to_redraw,
    Canvas, Canvas2, CanvasPosition, Frame, FrameLine, Position, Row, Text, Token, TokenStyle,
};
use mamediff::terminal::TerminalSize;

fn texts(line: &FrameLine) -> Vec<String> {
    line.tokens.iter().map(|t| t.text.clone()).collect()
}

fn row_texts(row: &Row) -> Vec<String> {
    row.texts.iter().map(|t| t.text.clone()).collect()
}

fn size(rows: usize, cols: usize) -> TerminalSize {
    TerminalSize { rows, cols }
}

#[test]
fn split_prefix_off_at_char_boundary() {
    let mut t = Token { text: "abcdef".to_string(), style: TokenStyle::Bold };
    let prefix = t.split_prefix_off(2);
    assert_eq!(prefix.text, "ab");
    assert_eq!(prefix.style, TokenStyle::Bold);
    assert_eq!(t.text, "cdef");
    assert_eq!(t.style, TokenStyle::Bold);
}

#[test]
fn split_prefix_off_through_wide_char_pads_with_ellipsis() {
    let mut t = Token::plain("あいう".to_string());
    let prefix = t.split_prefix_off(3);
    assert_eq!(prefix.text, "あ…");
    assert_eq!(t.text, "う");
    assert_eq!(prefix.cols(), 3);
}

#[test]
fn split_prefix_off_at_zero_and_past_end() {
    let mut t = Token::plain("abc".to_string());
    let prefix = t.split_prefix_off(0);
    assert_eq!(prefix.text, "");
    assert_eq!(t.text, "abc");

    let mut t = Token::plain("abc".to_string());
    let prefix = t.split_prefix_off(10);
    assert_eq!(prefix.text, "abc");
    assert_eq!(t.text, "");
}

#[test]
fn split_of_one_column_text_is_take_and_skip() {
    for col in 0..8 {
        let mut t = Token::plain("hello".to_string());
        let prefix = t.split_prefix_off(col);
        let k = col.min(5);
        assert_eq!(prefix.text, &"hello"[..k]);
        assert_eq!(t.text, &"hello"[k..]);
        assert_eq!(format!("{}{}", prefix.text, t.text), "hello");
    }
}

#[test]
fn token_cols_measures_display_width() {
    assert_eq!(Token::plain("abc".to_string()).cols(), 3);
    assert_eq!(Token::plain("あい".to_string()).cols(), 4);
    assert_eq!(Token::plain(String::new()).cols(), 0);
}

#[test]
fn draw_token_pads_an_empty_line() {
    let mut line = FrameLine::new();
    line.draw_token(2, Token::plain("abc".to_string()));
    assert_eq!(texts(&line), vec!["  ", "abc"]);
    assert_eq!(line.cols(), 5);
}

#[test]
fn draw_token_at_the_end_of_a_line() {
    let mut line = FrameLine::new();
    line.draw_token(0, Token::plain("ab".to_string()));
    line.draw_token(2, Token::plain("cd".to_string()));
    assert_eq!(texts(&line), vec!["ab", "cd"]);
}

#[test]
fn draw_token_over_a_token_cuts_at_the_overshoot() {
    let mut line = FrameLine::new();
    line.draw_token(0, Token::plain("hello".to_string()));
    line.draw_token(0, Token::plain("XY".to_string()));
    assert_eq!(texts(&line), vec!["XY", "lo"]);
}

#[test]
fn canvas2_draws_where_the_column_is_in_the_row_range() {
    let mut canvas = Canvas2::new(size(3, 10));
    assert_eq!(canvas.frame_row_range(), 0..3);
    canvas.draw_token(CanvasPosition::row_col(1, 2), Token::plain("x".to_string()));
    assert_eq!(texts(&canvas.frame.lines[1]), vec!["  ", "x"]);
    canvas.draw_token(CanvasPosition::row_col(0, 5), Token::plain("y".to_string()));
    assert!(canvas.frame.lines[0].tokens.is_empty());
    let frame = canvas.take_frame();
    assert_eq!(texts(&frame.lines[1]), vec!["  ", "x"]);
    assert_eq!(canvas.frame.lines.len(), 3);
    assert!(canvas.frame.lines.iter().all(|l| l.tokens.is_empty()));
}

#[test]
fn dirty_lines_lists_changed_and_new_lines() {
    let prev = Frame::new(size(2, 10));
    let mut next = Frame::new(size(4, 10));
    next.lines[1].draw_token(0, Token::plain("a".to_string()));
    let dirty: Vec<usize> = next.dirty_lines(&prev).iter().map(|(i, _)| *i).collect();
    assert_eq!(dirty, vec![1, 2, 3]);
    let none: Vec<usize> = next.dirty_lines(&next).iter().map(|(i, _)| *i).collect();
    assert!(none.is_empty());
    let empty = Frame::new(size(0, 10));
    let all: Vec<usize> = next.dirty_lines(&empty).iter().map(|(i, _)| *i).collect();
    assert_eq!(all, vec![0, 1, 2, 3]);
}

#[test]
fn positions_hold_their_coordinates() {
    let p = Position::new(3, 4);
    assert_eq!((p.row, p.col), (3, 4));
    let q = CanvasPosition::row_col(5, 6);
    assert_eq!((q.row, q.col), (5, 6));
}

#[test]
fn text_truncate_stops_where_the_width_reaches_the_limit() {
    let mut t = Text::new("abcdef");
    t.truncate(3);
    assert_eq!(t.text, "ab");
    let mut t = Text::new("あいう");
    t.truncate(3);
    assert_eq!(t.text, "あ");
    let mut t = Text::new("ab");
    t.truncate(5);
    assert_eq!(t.text, "ab");
    let mut t = Text::new("ab");
    t.truncate(0);
    assert_eq!(t.text, "");
}

#[test]
fn text_attributes() {
    let t = Text::new("x");
    assert!(t.attrs.is_empty());
    let t = t.bold();
    assert!(t.attrs.has(Attribute::Bold));
    assert!(!t.attrs.has(Attribute::Dim));
    let t = t.dim();
    assert!(t.attrs.has(Attribute::Bold));
    assert!(t.attrs.has(Attribute::Dim));
    assert_eq!(t.cols(), 1);
}

#[test]
fn row_truncate_truncates_every_text_past_the_limit() {
    let mut row = Row::empty();
    row.texts.push(Text::new("ab"));
    row.texts.push(Text::new("cdef"));
    row.texts.push(Text::new("ghij"));
    row.truncate(4);
    assert_eq!(row_texts(&row), vec!["ab", "c", "g"]);
    assert_eq!(row.cols(), 4);
}

#[test]
fn row_replace_pads_and_appends() {
    let mut row = Row::empty();
    row.texts.push(Text::new("ab"));
    let mut src = Row::empty();
    src.texts.push(Text::new("xy"));
    row.replace(4, src);
    assert_eq!(row_texts(&row), vec!["ab", "  ", "xy"]);

    let mut row = Row::empty();
    row.texts.push(Text::new("abcdef"));
    let mut src = Row::empty();
    src.texts.push(Text::new("Z"));
    row.replace(2, src);
    assert_eq!(row_texts(&row), vec!["a", " ", "Z"]);
}

#[test]
fn canvas_rows_newlines_and_clip() {
    let mut canvas = Canvas::new(3);
    assert_eq!(canvas.rows(), 1);
    canvas.draw_text(Text::new("ab"));
    canvas.draw_textl(Text::new("cd"));
    canvas.draw_textl(Text::new("x"));
    canvas.draw_newline();
    assert_eq!(canvas.rows(), 4);
    assert_eq!(row_texts(&canvas.rows[0]), vec!["ab", ""]);
    assert_eq!(row_texts(&canvas.rows[1]), vec!["x"]);
    assert!(canvas.rows[2].texts.is_empty());
    canvas.clip(1, 1);
    assert_eq!(canvas.rows.len(), 1);
    assert_eq!(row_texts(&canvas.rows[0]), vec!["x"]);
}

#[test]
fn draw_canvas_places_rows_below_and_right() {
    let mut dst = Canvas::new(10);
    dst.draw_textl(Text::new("hello"));
    let mut src = Canvas::new(10);
    src.draw_textl(Text::new("A"));
    src.draw_textl(Text::new("B"));
    dst.draw_canvas(Position::new(0, 2), src);
    assert_eq!(dst.rows.len(), 2);
    assert_eq!(row_texts(&dst.rows[0]), vec!["h", " ", "A"]);
    assert_eq!(row_texts(&dst.rows[1]), vec!["  ", "B"]);
}

#[test]
fn terminal_size_emptiness() {
    assert!(size(0, 5).is_empty());
    assert!(size(5, 0).is_empty());
    assert!(!size(1, 1).is_empty());
}

#[test]
fn checked_split_refuses_control_characters_before_the_cut() {
    let mut t = Token::plain("a\u{7}b".to_string());
    assert!(t.try_split_prefix_off(2).is_none());
    assert_eq!(t.text, "a\u{7}b");
    let prefix = t.try_split_prefix_off(1).unwrap();
    assert_eq!(prefix.text, "a");
    assert_eq!(t.text, "\u{7}b");
}

#[test]
fn checked_draw_token_leaves_the_line_when_a_cut_hits_a_control_character() {
    let mut line = FrameLine::new();
    line.tokens.push(Token::plain("a\u{7}bc".to_string()));
    assert!(!line.can_draw_token(1, &Token::plain("X".to_string())));
    assert!(!line.try_draw_token(1, Token::plain("X".to_string())));
    assert_eq!(texts(&line), vec!["a\u{7}bc"]);
    assert_eq!(line.try_cols(), Some(4));
    assert!(line.try_draw_token(4, Token::plain("X".to_string())));
    assert_eq!(texts(&line), vec!["a\u{7}bc", "X"]);
}

#[test]
fn checked_canvas2_draw_refuses_rows_outside_the_frame() {
    let mut canvas = Canvas2::new(size(2, 10));
    assert!(!canvas.try_draw_token(CanvasPosition::row_col(5, 1), Token::plain("x".to_string())));
    assert!(canvas.try_draw_token(CanvasPosition::row_col(1, 1), Token::plain("x".to_string())));
    assert_eq!(texts(&canvas.frame.lines[1]), vec![" ", "x"]);
    assert!(canvas.try_draw_token(CanvasPosition::row_col(9, 7), Token::plain("x".to_string())));
}

#[test]
fn checked_truncation_refuses_control_characters_before_the_cut() {
    let mut t = Text::new("\u{7}x");
    assert!(!t.try_truncate(1));
    assert_eq!(t.text, "\u{7}x");
    let mut row = Row::empty();
    row.texts.push(Text::new("ab"));
    row.texts.push(Text::new("\u{7}x"));
    assert!(!row.can_truncate(3));
    assert!(!row.try_truncate(3));
    assert_eq!(row_texts(&row), vec!["ab", "\u{7}x"]);
    assert!(row.try_truncate(5));
    assert_eq!(row.try_cols(), Some(4));
    assert!(!row.can_replace(3));
    assert!(!row.try_replace(3, Row::empty()));
    assert!(row.try_replace(6, Row::empty()));
    assert_eq!(row_texts(&row), vec!["ab", "\u{7}x", "  "]);
}

#[test]
fn checked_canvas_rows() {
    let mut canvas = Canvas::new(1);
    canvas.draw_text(Text::new("\u{7}"));
    assert!(!canvas.try_draw_newline());
    assert_eq!(canvas.rows.len(), 0);
    let mut canvas = Canvas::new(1);
    assert!(!canvas.try_draw_textl(Text::new("\u{7}")));
    assert!(canvas.try_draw_textl(Text::new("ab")));
    assert_eq!(row_texts(&canvas.rows[0]), vec![""]);
    let mut src = Canvas::new(5);
    src.draw_textl(Text::new("zz"));
    let mut dst = Canvas::new(5);
    dst.draw_textl(Text::new("\u{7}abc"));
    assert!(!dst.can_draw_canvas(Position::new(0, 2), &src));
    assert!(!dst.try_draw_canvas(Position::new(0, 2), src));
    let mut src = Canvas::new(5);
    src.draw_textl(Text::new("zz"));
    assert!(dst.try_draw_canvas(Position::new(1, 2), src));
    assert_eq!(row_texts(&dst.rows[1]), vec!["  ", "zz"]);
}

fn row_of(parts: &[&str]) -> Row {
    Row { texts: parts.iter().map(|p| Text::new(p)).collect() }
}

#[test]
fn rows_to_redraw_lists_changed_and_new_rows() {
    let prev = vec![row_of(&["a"]), row_of(&["b", "c"]), row_of(&["d"])];
    let rows = vec![
        row_of(&["a"]),
        row_of(&["b", "x"]),
        Row { texts: vec![Text::new("d").bold()] },
        row_of(&["e"]),
    ];
    let (redraw, clear_from) = rows_to_redraw(&rows, &prev);
    assert_eq!(redraw, vec![1, 2, 3]);
    assert_eq!(clear_from, 4);

    let (redraw, clear_from) = rows_to_redraw(&prev, &prev);
    assert!(redraw.is_empty());
    assert_eq!(clear_from, 3);

    let shorter = vec![row_of(&["a"])];
    let (redraw, clear_from) = rows_to_redraw(&shorter, &prev);
    assert!(redraw.is_empty());
    assert_eq!(clear_from, 1);
}
