//! Classification of characters into motion classes.
//!
//! Word motion treats a line as a sequence of runs of clusters sharing one
//! class. Brackets and quotes are distinguished from generic punctuation;
//! the scheme is deliberately ASCII-centric: all non-ASCII text classifies
//! as `Other`.

use vstd::prelude::*;

verus! {

/// The motion class of a character. `Empty` is returned only for a
/// zero-length query.
#[derive(Debug, Clone, Copy, PartialEq, Eq, Structural)]
pub enum CharClass {
    Punctuation,
    WhiteSpace,
    LBracket,
    RBracket,
    Empty,
    Other,
}

/// What `CharClass::from_char` returns, as a spec-level function.
///
/// First-match order: opening bracket/quote set, closing set, ASCII
/// punctuation, ASCII whitespace, everything else `Other`. The double
/// quote is in both bracket sets; the opening set is checked first.
pub open spec fn spec_class(c: char) -> CharClass {
    if c == '(' || c == '{' || c == '[' || c == '<' || c == '"' {
        CharClass::LBracket
    } else if c == ')' || c == '}' || c == ']' || c == '>' {
        CharClass::RBracket
    } else if is_ascii_punct(c) {
        CharClass::Punctuation
    } else if is_ascii_space(c) {
        CharClass::WhiteSpace
    } else {
        CharClass::Other
    }
}

/// ASCII punctuation, as `char::is_ascii_punctuation` defines it:
/// `!..=/`, `:..=@`, `[..=`` ` ``, `{..=~`.
pub open spec fn is_ascii_punct(c: char) -> bool {
    (0x21 <= c as u32 && c as u32 <= 0x2f)
    || (0x3a <= c as u32 && c as u32 <= 0x40)
    || (0x5b <= c as u32 && c as u32 <= 0x60)
    || (0x7b <= c as u32 && c as u32 <= 0x7e)
}

/// ASCII whitespace, as `char::is_ascii_whitespace` defines it:
/// space, tab, newline, form feed, carriage return.
pub open spec fn is_ascii_space(c: char) -> bool {
    c == ' ' || c == '\t' || c == '\n' || c == '\x0c' || c == '\r'
}

impl CharClass {
    /// Classify one character.
    pub fn from_char(c: char) -> (r: CharClass)
        ensures
            r == spec_class(c),
    {
        if c == '(' || c == '{' || c == '[' || c == '<' || c == '"' {
            CharClass::LBracket
        } else if c == ')' || c == '}' || c == ']' || c == '>' {
            CharClass::RBracket
        } else if (0x21 <= c as u32 && c as u32 <= 0x2f)
            || (0x3a <= c as u32 && c as u32 <= 0x40)
            || (0x5b <= c as u32 && c as u32 <= 0x60)
            || (0x7b <= c as u32 && c as u32 <= 0x7e) {
            CharClass::Punctuation
        } else if c == ' ' || c == '\t' || c == '\n' || c == '\x0c' || c == '\r' {
            CharClass::WhiteSpace
        } else {
            CharClass::Other
        }
    }

    /// Classify the first character of a string; `Empty` on empty input.
    pub fn from_str(s: &str) -> (r: CharClass)
        ensures
            s@.len() == 0 ==> r == CharClass::Empty,
            s@.len() > 0 ==> r == spec_class(s@[0]),
    {
        if s.is_empty() {
            CharClass::Empty
        } else {
            CharClass::from_char(s.get_char(0))
        }
    }
}

} // verus!
