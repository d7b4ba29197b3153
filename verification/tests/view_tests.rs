use editor::{Buffer, LineConfig, View};

fn cfg() -> LineConfig {
    LineConfig { tab_width: 8 }
}

fn view(s: &str) -> View {
    View::new(Buffer::from_text(s, cfg()))
}

#[test]
fn new_view_over_empty_buffer_gets_blank_line() {
    let v = View::new(Buffer::new());
    assert_eq!(v.cursor(), (0, 0));
    assert_eq!(v.buf.collate(), "\n");
}

#[test]
fn new_view_blank_line_has_default_tab_width() {
    // the blank line of a fresh view carries the default tab width of 8
    let mut v = View::new(Buffer::new());
    v.tab();
    assert_eq!(v.cursor(), (8, 0));
    assert_eq!(v.buf.lines[0].as_line().cols(), 8);
}

#[test]
fn buffer_split_and_collate_round_trip() {
    let buf = Buffer::from_text("hello\nworld", cfg());
    assert_eq!(buf.collate(), "hello\nworld\n");
}

#[test]
fn buffer_split_terminators() {
    assert_eq!(Buffer::from_text("a\r\nb\rc\nd", cfg()).collate(), "a\nb\nc\nd\n");
    assert_eq!(Buffer::from_text("a\n", cfg()).collate(), "a\n");
    assert_eq!(Buffer::from_text("\n", cfg()).collate(), "\n");
    assert_eq!(Buffer::from_text("", cfg()).collate(), "");
}

#[test]
fn col_motions() {
    let mut v = view("hello\nworld");
    v.last_col();
    assert_eq!(v.cursor(), (5, 0));
    v.first_col();
    assert_eq!(v.cursor(), (0, 0));
    let mut v2 = view("  indent");
    v2.first_non_space_col();
    assert_eq!(v2.cursor(), (2, 0));
}

#[test]
fn next_col_wraps_to_next_line() {
    let mut v = view("a\nb");
    v.next_col();
    assert_eq!(v.cursor(), (1, 0));
    v.next_col();
    assert_eq!(v.cursor(), (0, 1));
}

#[test]
fn prev_col_wraps_to_prev_line_end() {
    let mut v = view("ab\nc");
    v.scroll_rel(1);
    assert_eq!(v.cursor(), (0, 1));
    v.prev_col();
    assert_eq!(v.cursor(), (2, 0));
    v.prev_col();
    assert_eq!(v.cursor(), (1, 0));
}

#[test]
fn advance_at_last_column_of_last_line_is_noop() {
    let mut v = view("a\nbc");
    v.scroll_rel(1);
    v.last_col();
    assert_eq!(v.cursor(), (2, 1));
    v.next_col();
    assert_eq!(v.cursor(), (2, 1));
}

#[test]
fn retreat_at_origin_is_noop() {
    let mut v = view("ab\ncd");
    v.prev_col();
    assert_eq!(v.cursor(), (0, 0));
}

#[test]
fn word_motion_round_trip() {
    let mut v = view("foo  bar(baz)");
    v.next_word();
    assert_eq!(v.cursor(), (5, 0));
    v.prev_word();
    assert_eq!(v.cursor(), (0, 0));
}

#[test]
fn backspace_removes_before_cursor() {
    let mut v = view("ab");
    v.last_col();
    v.backspace();
    assert_eq!(v.cursor(), (1, 0));
    assert_eq!(v.buf.collate(), "a\n");
}

#[test]
fn backspace_at_column_zero_is_noop() {
    let mut v = view("ab");
    v.backspace();
    assert_eq!(v.cursor(), (0, 0));
    assert_eq!(v.buf.collate(), "ab\n");
}

#[test]
fn backspace_clamps_sticky_column() {
    // park the column past the line's end, then delete: the column is
    // clamped to the width first
    let mut v = view("abc\nz");
    v.last_col();
    v.scroll_rel(1);
    assert_eq!(v.cursor(), (3, 1));
    v.backspace();
    assert_eq!(v.cursor(), (0, 1));
    assert_eq!(v.buf.collate(), "abc\n\n");
}

#[test]
fn backspace_over_tab_stops_at_zero() {
    // removing an eight-column tab from column five stops the column at
    // zero rather than underflowing
    let mut v = view("\tx");
    for _ in 0..5 {
        v.next_col();
    }
    assert_eq!(v.cursor(), (5, 0));
    v.backspace();
    assert_eq!(v.cursor(), (0, 0));
    assert_eq!(v.buf.collate(), "x\n");
}

#[test]
fn tab_inserts_and_advances_by_tab_width() {
    let mut v = view("ab");
    v.next_col();
    v.tab();
    assert_eq!(v.cursor(), (9, 0));
    assert_eq!(v.buf.collate(), "a\tb\n");
}

#[test]
fn insert_str_advances_by_inserted_width() {
    let mut v = view("hd");
    v.next_col();
    v.insert_str("ello worl");
    assert_eq!(v.cursor(), (10, 0));
    assert_eq!(v.buf.collate(), "hello world\n");
}

#[test]
fn insert_str_wide_text() {
    let mut v = view("ab");
    v.next_col();
    v.insert_str("\u{5bbd}");
    assert_eq!(v.cursor(), (3, 0));
    assert_eq!(v.buf.collate(), "a\u{5bbd}b\n");
}

#[test]
fn insert_lines_above_and_below() {
    let mut v = view("mid");
    v.insert_line_above();
    assert_eq!(v.buf.collate(), "\nmid\n");
    assert_eq!(v.cursor(), (0, 1));
    v.insert_line_below();
    assert_eq!(v.buf.collate(), "\nmid\n\n");
    assert_eq!(v.cursor(), (0, 1));
}

#[test]
fn scroll_rel_saturates() {
    let mut v = view("a\nb\nc");
    v.scroll_rel(10);
    assert_eq!(v.cursor(), (0, 2));
    v.scroll_rel(-1);
    assert_eq!(v.cursor(), (0, 1));
    v.scroll_rel(-10);
    assert_eq!(v.cursor(), (0, 0));
    v.scroll_rel(0);
    assert_eq!(v.cursor(), (0, 0));
}

#[test]
fn scroll_abs_clamps_to_last_line() {
    let mut v = view("a\nb\nc");
    v.scroll_abs(1);
    assert_eq!(v.cursor(), (0, 1));
    v.scroll_abs(60000);
    assert_eq!(v.cursor(), (0, 2));
    v.scroll_abs(0);
    assert_eq!(v.cursor(), (0, 0));
}

#[test]
fn open_line_below_composition() {
    // the "open line below" command: splice, move down, column reset
    let mut v = view("one\ntwo");
    v.insert_line_below();
    v.first_col();
    v.scroll_rel(1);
    v.insert_str("new");
    assert_eq!(v.buf.collate(), "one\nnew\ntwo\n");
}
