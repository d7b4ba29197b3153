//! The document: an ordered sequence of editable lines.
//!
//! A buffer is built by splitting source text on line terminators — `\r`,
//! `\n` and `\r\n` are each one terminator, never retained — and is
//! serialized back out as each line followed by one newline, with no
//! extra trailing blank line.

use vstd::prelude::*;

use crate::line::{Line, LineConfig, LineMut};
use vstd::string::{StrSliceExecFns, StringExecFns};

verus! {

/// A line terminator character.
pub open spec fn is_term(c: char) -> bool {
    c == '\n' || c == '\r'
}

/// The index of the first line terminator in `s`, or `s.len()` if there
/// is none.
pub open spec fn first_term(s: Seq<char>) -> nat
    decreases s.len(),
{
    if s.len() == 0 {
        0
    } else if is_term(s[0]) {
        0
    } else {
        1 + first_term(s.drop_first())
    }
}

/// The lines of `s`: maximal terminator-free pieces, where `\r`, `\n` and
/// `\r\n` each end one line. Text after the last terminator forms a final
/// line; a terminator at the very end adds no empty line.
pub open spec fn split_lines(s: Seq<char>) -> Seq<Seq<char>>
    decreases s.len(),
{
    if s.len() == 0 {
        Seq::empty()
    } else {
        let i = first_term(s) as int;
        if i >= s.len() {
            seq![s]
        } else {
            let rest = if s[i] == '\r' && i + 1 < s.len() && s[i + 1] == '\n' {
                s.skip(i + 2)
            } else {
                s.skip(i + 1)
            };
            seq![s.take(i)] + split_lines(rest)
        }
    }
}

/// The serialized form of a sequence of lines: each line followed by one
/// newline.
pub open spec fn join_lines(ts: Seq<Seq<char>>) -> Seq<char>
    decreases ts.len(),
{
    if ts.len() == 0 {
        Seq::empty()
    } else {
        ts[0] + seq!['\n'] + join_lines(ts.drop_first())
    }
}

/// The first terminator of `s` sits exactly at `j` when everything before
/// `j` is terminator-free and `j` is a terminator or the end.
pub proof fn lemma_first_term_is(s: Seq<char>, j: int)
    requires
        0 <= j <= s.len(),
        forall|k: int| 0 <= k < j ==> !is_term(#[trigger] s[k]),
        j < s.len() ==> is_term(s[j]),
    ensures
        first_term(s) == j,
    decreases j,
{
    if s.len() == 0 {
    } else if j == 0 {
    } else {
        lemma_first_term_is(s.drop_first(), j - 1);
    }
}

/// Serialization appends one line and one newline at a time.
pub proof fn lemma_join_lines_snoc(ts: Seq<Seq<char>>, i: int)
    requires
        0 <= i < ts.len(),
    ensures
        join_lines(ts.take(i + 1)) == join_lines(ts.take(i)) + ts[i] + seq!['\n'],
    decreases i,
{
    if i == 0 {
        assert(ts.take(1).drop_first() =~= Seq::<Seq<char>>::empty());
        assert(join_lines(Seq::<Seq<char>>::empty()) == Seq::<char>::empty());
        assert(ts.take(0) =~= Seq::<Seq<char>>::empty());
        assert(ts.take(1)[0] == ts[0]);
        assert(join_lines(ts.take(1)) =~= join_lines(ts.take(0)) + ts[0] + seq!['\n']);
    } else {
        lemma_join_lines_snoc(ts.drop_first(), i - 1);
        assert(ts.take(i + 1).drop_first() =~= ts.drop_first().take(i));
        assert(ts.take(i).drop_first() =~= ts.drop_first().take(i - 1));
        assert(ts.drop_first()[i - 1] == ts[i]);
        assert(join_lines(ts.take(i + 1)) == ts[0] + seq!['\n'] + join_lines(
            ts.drop_first().take(i),
        ));
        assert(join_lines(ts.take(i)) == ts[0] + seq!['\n'] + join_lines(
            ts.drop_first().take(i - 1),
        ));
        assert((ts[0] + seq!['\n'] + (join_lines(ts.drop_first().take(i - 1)) + ts[i]
            + seq!['\n'])) =~= (ts[0] + seq!['\n'] + join_lines(ts.drop_first().take(i - 1)))
            + ts[i] + seq!['\n']);
    }
}

/// The document: an ordered sequence of editable lines.
#[derive(Debug)]
pub struct Buffer {
    pub lines: Vec<LineMut>,
}

impl Buffer {
    /// The text of each line, in order.
    pub open spec fn texts(&self) -> Seq<Seq<char>> {
        self.lines@.map_values(|lm: LineMut| lm.line.text())
    }

    /// Every line is well-formed.
    pub open spec fn wf(&self) -> bool {
        forall|i: int| 0 <= i < self.lines@.len() ==> (#[trigger] self.lines@[i]).wf()
    }

    /// An empty buffer, with no lines at all.
    pub fn new() -> (r: Buffer)
        ensures
            r.wf(),
            r.lines@.len() == 0,
            r.texts() =~= Seq::<Seq<char>>::empty(),
    {
        let r = Buffer { lines: Vec::new() };
        proof {
            assert(r.texts() =~= Seq::<Seq<char>>::empty());
        }
        r
    }

    /// Build a buffer by splitting source text on line terminators.
    /// The length bound is a machine limit inherited from line
    /// construction.
    #[verifier::loop_isolation(false)]
    pub fn from_text(s: &str, cfg: LineConfig) -> (r: Buffer)
        requires
            256 * s@.len() <= isize::MAX as int,
        ensures
            r.wf(),
            r.texts() == split_lines(s@),
            forall|i: int| 0 <= i < r.lines@.len() ==> (#[trigger] r.lines@[i]).line.cfg == cfg,
    {
        let n = s.unicode_len();
        let mut lines: Vec<LineMut> = Vec::new();
        let mut start: usize = 0;
        let mut i: usize = 0;
        proof {
            assert(s@.skip(0) =~= s@);
            assert(lines@.map_values(|lm: LineMut| lm.line.text()) =~= Seq::<Seq<char>>::empty());
        }
        while i < n
            invariant
                0 <= start <= i <= n,
                n == s@.len(),
                split_lines(s@) == lines@.map_values(|lm: LineMut| lm.line.text()) + split_lines(
                    s@.skip(start as int),
                ),
                forall|k: int| start <= k < i ==> !is_term(#[trigger] s@[k]),
                forall|k: int| 0 <= k < lines@.len() ==> (#[trigger] lines@[k]).wf(),
                forall|k: int| 0 <= k < lines@.len() ==> (#[trigger] lines@[k]).line.cfg == cfg,
            decreases n - i,
        {
            let c = s.get_char(i);
            if c == '\n' || c == '\r' {
                let ghost old_lines = lines@;
                let piece = s.substring_char(start, i);
                proof {
                    assert(forall|k: int|
                        0 <= k < piece@.len() ==> piece@[k] == s@[start + k] && !is_term(
                            #[trigger] piece@[k],
                        ));
                }
                lines.push(LineMut { line: Line::from_str(piece, cfg) });
                let inext: usize = if c == '\r' && i + 1 < n && s.get_char(i + 1) == '\n' {
                    i + 2
                } else {
                    i + 1
                };
                proof {
                    let t = s@.skip(start as int);
                    let fi = i - start;
                    assert forall|k: int| 0 <= k < fi implies !is_term(#[trigger] t[k]) by {
                        assert(t[k] == s@[start + k]);
                    }
                    assert(t[fi] == s@[i as int]);
                    lemma_first_term_is(t, fi);
                    assert(split_lines(t) == seq![t.take(fi)] + split_lines(
                        if t[fi] == '\r' && fi + 1 < t.len() && t[fi + 1] == '\n' {
                            t.skip(fi + 2)
                        } else {
                            t.skip(fi + 1)
                        },
                    ));
                    assert(fi + 1 < t.len() <==> i + 1 < n);
                    if i + 1 < n {
                        assert(t[fi + 1] == s@[i + 1]);
                    }
                    assert(t.skip(fi + 1) =~= s@.skip(i + 1));
                    if fi + 2 <= t.len() {
                        assert(t.skip(fi + 2) =~= s@.skip(i + 2));
                    }
                    assert(split_lines(t) == seq![t.take(fi)] + split_lines(
                        s@.skip(inext as int),
                    ));
                    assert(t.take(fi) =~= piece@);
                    assert(lines@.map_values(|lm: LineMut| lm.line.text()) =~= old_lines.map_values(
                        |lm: LineMut| lm.line.text(),
                    ) + seq![piece@]);
                    assert((old_lines.map_values(|lm: LineMut| lm.line.text()) + (seq![piece@]
                        + split_lines(s@.skip(inext as int)))) =~= (old_lines.map_values(
                        |lm: LineMut| lm.line.text(),
                    ) + seq![piece@]) + split_lines(s@.skip(inext as int)));
                }
                start = inext;
                i = inext;
            } else {
                i = i + 1;
            }
        }
        if start < n {
            let ghost old_lines = lines@;
            let piece = s.substring_char(start, n);
            proof {
                assert(forall|k: int|
                    0 <= k < piece@.len() ==> piece@[k] == s@[start + k] && !is_term(
                        #[trigger] piece@[k],
                    ));
            }
            lines.push(LineMut { line: Line::from_str(piece, cfg) });
            proof {
                let t = s@.skip(start as int);
                assert forall|k: int| 0 <= k < t.len() implies !is_term(#[trigger] t[k]) by {
                    assert(t[k] == s@[start + k]);
                }
                lemma_first_term_is(t, t.len() as int);
                assert(t =~= piece@);
                assert(split_lines(t) == seq![t]);
                assert(lines@.map_values(|lm: LineMut| lm.line.text()) =~= old_lines.map_values(
                    |lm: LineMut| lm.line.text(),
                ) + seq![piece@]);
                assert((old_lines.map_values(|lm: LineMut| lm.line.text()) + seq![piece@])
                    =~= lines@.map_values(|lm: LineMut| lm.line.text()));
            }
        } else {
            proof {
                assert(s@.skip(start as int) =~= Seq::<char>::empty());
                assert(split_lines(s@.skip(start as int)) =~= Seq::<Seq<char>>::empty());
            }
        }
        let r = Buffer { lines };
        proof {
            assert(r.texts() + Seq::<Seq<char>>::empty() =~= r.texts());
            assert(r.texts() == split_lines(s@));
        }
        r
    }

    /// Serialize the buffer: each line followed by one newline, in order,
    /// with no extra trailing blank line.
    #[verifier::loop_isolation(false)]
    pub fn collate(&self) -> (r: String)
        requires
            self.wf(),
        ensures
            r@ == join_lines(self.texts()),
    {
        let mut out = String::new();
        let n = self.lines.len();
        let mut i: usize = 0;
        proof {
            assert(self.texts().take(0) =~= Seq::<Seq<char>>::empty());
        }
        while i < n
            invariant
                0 <= i <= n,
                out@ == join_lines(self.texts().take(i as int)),
            decreases n - i,
        {
            let t = self.lines[i].as_line().to_text();
            out.append(t.as_str());
            out.append("\n");
            proof {
                reveal_strlit("\n");
                assert("\n"@ =~= seq!['\n']);
                assert(t@ == self.texts()[i as int]);
                lemma_join_lines_snoc(self.texts(), i as int);
            }
            i = i + 1;
        }
        proof {
            assert(self.texts().take(n as int) =~= self.texts());
        }
        out
    }
}

} // verus!
