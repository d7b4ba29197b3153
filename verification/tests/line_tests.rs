use editor::{CharClass, Line, LineConfig, LineMut};

fn cfg() -> LineConfig {
    LineConfig { tab_width: 8 }
}

fn line(s: &str) -> Line {
    Line::from_str(s, cfg())
}

fn line_mut(s: &str) -> LineMut {
    LineMut { line: Line::from_str(s, cfg()) }
}

#[test]
fn classify_chars() {
    assert_eq!(CharClass::from_char('('), CharClass::LBracket);
    assert_eq!(CharClass::from_char('"'), CharClass::LBracket);
    assert_eq!(CharClass::from_char('<'), CharClass::LBracket);
    assert_eq!(CharClass::from_char(')'), CharClass::RBracket);
    assert_eq!(CharClass::from_char(']'), CharClass::RBracket);
    assert_eq!(CharClass::from_char(','), CharClass::Punctuation);
    assert_eq!(CharClass::from_char('~'), CharClass::Punctuation);
    assert_eq!(CharClass::from_char(' '), CharClass::WhiteSpace);
    assert_eq!(CharClass::from_char('\t'), CharClass::WhiteSpace);
    assert_eq!(CharClass::from_char('x'), CharClass::Other);
    assert_eq!(CharClass::from_char('7'), CharClass::Other);
    assert_eq!(CharClass::from_char('\u{e9}'), CharClass::Other);
}

#[test]
fn classify_str() {
    assert_eq!(CharClass::from_str(""), CharClass::Empty);
    assert_eq!(CharClass::from_str("hello"), CharClass::Other);
    assert_eq!(CharClass::from_str("  x"), CharClass::WhiteSpace);
}

#[test]
fn cols_ascii_and_tab() {
    assert_eq!(line("hello").cols(), 5);
    assert_eq!(line("").cols(), 0);
    assert_eq!(line("a\tb").cols(), 10);
    assert_eq!(line("\t").cols(), 8);
}

#[test]
fn cols_wide_and_combining() {
    // A CJK character is two columns wide.
    assert_eq!(line("\u{5bbd}x").cols(), 3);
    // A combining accent joins the previous character into one
    // single-width cluster.
    assert_eq!(line("ae\u{301}b").cols(), 3);
}

#[test]
fn col2idx_monotone_and_past_end() {
    let l = line("a\tb");
    // cumulative widths: a -> 1, tab -> 9, b -> 10
    assert_eq!(l.col2idx(0), 0);
    assert_eq!(l.col2idx(1), 1);
    assert_eq!(l.col2idx(8), 1);
    assert_eq!(l.col2idx(9), 2);
    let mut prev = 0;
    for col in 0..20 {
        let idx = l.col2idx(col);
        assert!(idx >= prev);
        prev = idx;
    }
    // at or past the width, the resolved index is the cluster count
    assert_eq!(l.col2idx(10), 3);
    assert_eq!(l.col2idx(1000), 3);
}

#[test]
fn col2idx_within_wide_char() {
    let l = line("\u{5bbd}x");
    // column 1 falls inside the two-column character
    assert_eq!(l.col2idx(0), 0);
    assert_eq!(l.col2idx(1), 0);
    assert_eq!(l.col2idx(2), 1);
}

#[test]
fn first_non_white_space_cases() {
    assert_eq!(line("  x").first_non_white_space(), 2);
    assert_eq!(line("x  ").first_non_white_space(), 0);
    // an entirely blank line yields its width
    assert_eq!(line("   ").first_non_white_space(), 3);
    assert_eq!(line("\t x").first_non_white_space(), 9);
    assert_eq!(line("").first_non_white_space(), 0);
}

#[test]
fn next_word_basic() {
    // "foo  bar(baz)" — from 0, land at the start of "bar"
    let l = line("foo  bar(baz)");
    assert_eq!(l.next_word_col(0), 5);
    assert_eq!(l.next_word_col(5), 8);
    assert_eq!(l.next_word_col(8), 9);
}

#[test]
fn next_word_fixed_point_at_end() {
    let l = line("foo");
    assert_eq!(l.next_word_col(2), 2);
    assert_eq!(l.next_word_col(3), 3);
    assert_eq!(l.next_word_col(100), 100);
}

#[test]
fn prev_word_basic() {
    let l = line("foo  bar(baz)");
    assert_eq!(l.prev_word_col(5), 0);
    assert_eq!(l.prev_word_col(8), 5);
    assert_eq!(l.prev_word_col(0), 0);
    assert_eq!(l.prev_word_col(2), 0);
}

#[test]
fn remove_col_removes_one_cluster() {
    let mut lm = line_mut("hello");
    let w = lm.remove_col(1);
    assert_eq!(w, 1);
    assert_eq!(lm.as_line().to_text(), "hllo");
    assert_eq!(lm.as_line().cols(), 4);
}

#[test]
fn remove_col_combining_cluster() {
    let mut lm = line_mut("ae\u{301}b");
    let w = lm.remove_col(1);
    assert_eq!(w, 1);
    assert_eq!(lm.as_line().to_text(), "ab");
}

#[test]
fn remove_col_tab() {
    let mut lm = line_mut("a\tb");
    let w = lm.remove_col(3);
    assert_eq!(w, 8);
    assert_eq!(lm.as_line().to_text(), "ab");
}

#[test]
fn remove_col_past_end_is_noop() {
    let mut lm = line_mut("hello");
    assert_eq!(lm.remove_col(5), 0);
    assert_eq!(lm.remove_col(100), 0);
    assert_eq!(lm.as_line().to_text(), "hello");
}

#[test]
fn remove_col_zero_on_empty_line_is_noop() {
    let mut lm = line_mut("");
    assert_eq!(lm.remove_col(0), 0);
    assert_eq!(lm.as_line().to_text(), "");
}

#[test]
fn insert_str_col_width_and_text() {
    let mut lm = line_mut("hello");
    let w = lm.insert_str_col(2, "XY");
    assert_eq!(w, 2);
    assert_eq!(lm.as_line().to_text(), "heXYllo");
}

#[test]
fn insert_str_col_tab_counts_tab_width() {
    let mut lm = line_mut("ab");
    let w = lm.insert_str_col(1, "\t");
    assert_eq!(w, 8);
    assert_eq!(lm.as_line().to_text(), "a\tb");
    assert_eq!(lm.as_line().cols(), 10);
}

#[test]
fn insert_str_col_past_end_appends() {
    let mut lm = line_mut("a");
    let w = lm.insert_str_col(50, "b");
    assert_eq!(w, 1);
    assert_eq!(lm.as_line().to_text(), "ab");
}

#[test]
fn tab_width_is_threaded_configuration() {
    let narrow = LineConfig { tab_width: 4 };
    let l = Line::from_str("\tx", narrow);
    assert_eq!(l.cols(), 5);
    assert_eq!(l.col2idx(3), 0);
    assert_eq!(l.col2idx(4), 1);
    let mut lm = LineMut { line: Line::from_str("ab", narrow) };
    assert_eq!(lm.insert_str_col(1, "\t"), 4);
}

#[test]
fn insert_then_remove_round_trip() {
    // width-2 single-width text at column 2, then two removals there
    let mut lm = line_mut("hello");
    let w = lm.insert_str_col(2, "XY");
    assert_eq!(w, 2);
    for _ in 0..w {
        assert_eq!(lm.remove_col(2), 1);
    }
    assert_eq!(lm.as_line().to_text(), "hello");
}
