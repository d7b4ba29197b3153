//! The single mutable traversal into a buffer: a current line, a sticky
//! column, navigation, editing, and viewport rendering.
//!
//! The view owns its buffer and keeps the current line as an index; at
//! most one view edits a buffer, by construction. The column `cx` is
//! measured in display-width units and may exceed the current line's
//! width while parked on a shorter line; it is clamped only when used
//! for editing or rendering.

use vstd::prelude::*;
use vstd::view::View as _;

use crate::buffer::Buffer;
use crate::line::{
    Line, LineConfig, LineMut, col_to_cluster, cwidth, lemma_col_to_cluster_at_end,
    lemma_col_to_cluster_le_len, lemma_singleton_cluster, line_width, no_terminators,
    spec_first_non_ws, spec_next_word_col, spec_prev_word_col,
};
use crate::render::{Error, RenderOp, Renderer, ops_prefix_of};
use crate::segment::{concat_all, graphemes_of};

verus! {

/// The write/return/move trace of rendering `cnt` lines upward starting
/// at line `top` and moving one row up after each.
pub open spec fn up_ops(ts: Seq<Seq<char>>, top: int, cnt: int) -> Seq<RenderOp>
    decreases cnt,
{
    if cnt <= 0 {
        Seq::empty()
    } else {
        seq![RenderOp::Write(ts[top]), RenderOp::Ret, RenderOp::MoveY(-1)] + up_ops(
            ts,
            top - 1,
            cnt - 1,
        )
    }
}

/// The write/return/move trace of rendering `cnt` lines downward starting
/// at line `i` and moving one row down after each.
pub open spec fn down_ops(ts: Seq<Seq<char>>, i: int, cnt: int) -> Seq<RenderOp>
    decreases cnt,
{
    if cnt <= 0 {
        Seq::empty()
    } else {
        seq![RenderOp::Write(ts[i]), RenderOp::Ret, RenderOp::MoveY(1)] + down_ops(
            ts,
            i + 1,
            cnt - 1,
        )
    }
}

/// The complete trace of one render pass over lines `ts` with the cursor
/// on line `cy`, a viewport of height `h`, and the hardware cursor placed
/// at column `cursor_x`: the current line lands on row `h / 2`, up to
/// `h / 2` lines are drawn above and below (fewer at document edges), and
/// the cursor returns to the current row.
pub open spec fn spec_render_ops(ts: Seq<Seq<char>>, cy: int, cursor_x: int, h: int) -> Seq<
    RenderOp,
> {
    let hh = h / 2;
    let up = if hh <= cy + 1 {
        hh
    } else {
        cy + 1
    };
    let down = if hh <= ts.len() - 1 - cy {
        hh
    } else {
        ts.len() - 1 - cy
    };
    seq![RenderOp::MoveY(hh)] + up_ops(ts, cy, up) + seq![RenderOp::MoveY(up + 1)] + down_ops(
        ts,
        cy + 1,
        down,
    ) + seq![RenderOp::MoveY(-(down + 1)), RenderOp::Ret, RenderOp::MoveX(cursor_x)]
}

/// Rendering one more line upward appends one write/return/move triple.
proof fn lemma_up_ops_snoc(ts: Seq<Seq<char>>, top: int, cnt: int)
    requires
        cnt >= 0,
    ensures
        up_ops(ts, top, cnt + 1) == up_ops(ts, top, cnt) + seq![
            RenderOp::Write(ts[top - cnt]),
            RenderOp::Ret,
            RenderOp::MoveY(-1),
        ],
    decreases cnt,
{
    if cnt == 0 {
        assert(up_ops(ts, top - 1, 0) =~= Seq::<RenderOp>::empty());
        assert(up_ops(ts, top, 1) =~= up_ops(ts, top, 0) + seq![
            RenderOp::Write(ts[top]),
            RenderOp::Ret,
            RenderOp::MoveY(-1),
        ]);
    } else {
        lemma_up_ops_snoc(ts, top - 1, cnt - 1);
        assert(up_ops(ts, top, cnt + 1) =~= up_ops(ts, top, cnt) + seq![
            RenderOp::Write(ts[top - cnt]),
            RenderOp::Ret,
            RenderOp::MoveY(-1),
        ]);
    }
}

/// Rendering one more line downward appends one write/return/move triple.
proof fn lemma_down_ops_snoc(ts: Seq<Seq<char>>, i: int, cnt: int)
    requires
        cnt >= 0,
    ensures
        down_ops(ts, i, cnt + 1) == down_ops(ts, i, cnt) + seq![
            RenderOp::Write(ts[i + cnt]),
            RenderOp::Ret,
            RenderOp::MoveY(1),
        ],
    decreases cnt,
{
    if cnt == 0 {
        assert(down_ops(ts, i + 1, 0) =~= Seq::<RenderOp>::empty());
        assert(down_ops(ts, i, 1) =~= down_ops(ts, i, 0) + seq![
            RenderOp::Write(ts[i]),
            RenderOp::Ret,
            RenderOp::MoveY(1),
        ]);
    } else {
        lemma_down_ops_snoc(ts, i + 1, cnt - 1);
        assert(down_ops(ts, i, cnt + 1) =~= down_ops(ts, i, cnt) + seq![
            RenderOp::Write(ts[i + cnt]),
            RenderOp::Ret,
            RenderOp::MoveY(1),
        ]);
    }
}

/// An upward pass over `cnt` lines performs three operations per line.
proof fn lemma_up_ops_len(ts: Seq<Seq<char>>, top: int, cnt: int)
    ensures
        up_ops(ts, top, cnt).len() == (if cnt <= 0 {
            0int
        } else {
            3 * cnt
        }),
    decreases cnt,
{
    if cnt > 0 {
        lemma_up_ops_len(ts, top - 1, cnt - 1);
    }
}

/// A downward pass over `cnt` lines performs three operations per line.
proof fn lemma_down_ops_len(ts: Seq<Seq<char>>, i: int, cnt: int)
    ensures
        down_ops(ts, i, cnt).len() == (if cnt <= 0 {
            0int
        } else {
            3 * cnt
        }),
    decreases cnt,
{
    if cnt > 0 {
        lemma_down_ops_len(ts, i + 1, cnt - 1);
    }
}

/// An upward pass splits into its first `c` lines and the rest.
proof fn lemma_up_ops_split(ts: Seq<Seq<char>>, top: int, c: int, cnt: int)
    requires
        0 <= c <= cnt,
    ensures
        up_ops(ts, top, cnt) == up_ops(ts, top, c) + up_ops(ts, top - c, cnt - c),
    decreases c,
{
    if c == 0 {
        assert(up_ops(ts, top, 0) =~= Seq::<RenderOp>::empty());
        assert(up_ops(ts, top, 0) + up_ops(ts, top, cnt) =~= up_ops(ts, top, cnt));
    } else {
        lemma_up_ops_split(ts, top - 1, c - 1, cnt - 1);
        assert((seq![RenderOp::Write(ts[top]), RenderOp::Ret, RenderOp::MoveY(-1)] + (up_ops(
            ts,
            top - 1,
            c - 1,
        ) + up_ops(ts, top - c, cnt - c))) =~= (seq![
            RenderOp::Write(ts[top]),
            RenderOp::Ret,
            RenderOp::MoveY(-1),
        ] + up_ops(ts, top - 1, c - 1)) + up_ops(ts, top - c, cnt - c));
    }
}

/// A downward pass splits into its first `c` lines and the rest.
proof fn lemma_down_ops_split(ts: Seq<Seq<char>>, i: int, c: int, cnt: int)
    requires
        0 <= c <= cnt,
    ensures
        down_ops(ts, i, cnt) == down_ops(ts, i, c) + down_ops(ts, i + c, cnt - c),
    decreases c,
{
    if c == 0 {
        assert(down_ops(ts, i, 0) =~= Seq::<RenderOp>::empty());
        assert(down_ops(ts, i, 0) + down_ops(ts, i, cnt) =~= down_ops(ts, i, cnt));
    } else {
        lemma_down_ops_split(ts, i + 1, c - 1, cnt - 1);
        assert((seq![RenderOp::Write(ts[i]), RenderOp::Ret, RenderOp::MoveY(1)] + (down_ops(
            ts,
            i + 1,
            c - 1,
        ) + down_ops(ts, i + c, cnt - c))) =~= (seq![
            RenderOp::Write(ts[i]),
            RenderOp::Ret,
            RenderOp::MoveY(1),
        ] + down_ops(ts, i + 1, c - 1)) + down_ops(ts, i + c, cnt - c));
    }
}

/// Taking past a leading segment keeps the segment and takes the rest.
proof fn lemma_ops_take_concat(a: Seq<RenderOp>, b: Seq<RenderOp>, k: int)
    requires
        0 <= k <= b.len(),
    ensures
        (a + b).take(a.len() + k) == a + b.take(k),
{
    assert((a + b).take(a.len() as int + k) =~= a + b.take(k));
}

/// Taking within a leading segment ignores what follows it.
proof fn lemma_ops_take_front(a: Seq<RenderOp>, b: Seq<RenderOp>, k: int)
    requires
        0 <= k <= a.len(),
    ensures
        (a + b).take(k) == a.take(k),
{
    assert((a + b).take(k) =~= a.take(k));
}

/// Write one line, return to the first column, and move one row (`dy`).
/// On failure the operations performed are exactly a prefix of that
/// triple.
fn emit_line<R: Renderer>(r: &mut R, t: &str, dy: isize) -> (res: Result<(), Error>)
    ensures
        final(r).spec_height() == old(r).spec_height(),
        final(r).spec_width() == old(r).spec_width(),
        res is Ok ==> final(r).ops() == old(r).ops() + seq![
            RenderOp::Write(t@),
            RenderOp::Ret,
            RenderOp::MoveY(dy as int),
        ],
        res is Err ==> exists|m: int|
            0 <= m <= 2 && final(r).ops() == old(r).ops() + (seq![
                RenderOp::Write(t@),
                RenderOp::Ret,
                RenderOp::MoveY(dy as int),
            ]).take(m),
{
    let ghost base = old(r).ops();
    let ghost triple = seq![RenderOp::Write(t@), RenderOp::Ret, RenderOp::MoveY(dy as int)];
    match r.write(t) {
        Ok(_) => {},
        Err(e) => {
            proof {
                assert(r.ops() =~= base + triple.take(0));
            }
            return Err(e);
        },
    }
    match r.ret() {
        Ok(_) => {},
        Err(e) => {
            proof {
                assert(r.ops() =~= base + triple.take(1));
            }
            return Err(e);
        },
    }
    match r.move_y(dy) {
        Ok(_) => {},
        Err(e) => {
            proof {
                assert(r.ops() =~= base + triple.take(2));
            }
            return Err(e);
        },
    }
    proof {
        assert(r.ops() =~= base + triple);
    }
    Ok(())
}

/// The single mutable traversal into one buffer: the buffer itself, the
/// index of the current line, and the sticky display column `cx`.
pub struct View {
    pub buf: Buffer,
    pub cy: usize,
    pub cx: usize,
}

impl View {
    /// Well-formedness: the buffer holds at least one well-formed line
    /// and the traversal points at one of them.
    pub open spec fn wf(&self) -> bool {
        &&& self.buf.wf()
        &&& self.buf.lines@.len() >= 1
        &&& (self.cy as int) < self.buf.lines@.len()
    }

    /// The current line.
    pub open spec fn cur_line(&self) -> Line {
        self.buf.lines@[self.cy as int].line
    }

    /// The text of each buffer line.
    pub open spec fn texts(&self) -> Seq<Seq<char>> {
        self.buf.texts()
    }

    /// The full trace one render pass performs on a viewport of height
    /// `h`: `spec_render_ops` with the hardware cursor clamped into the
    /// current line.
    pub open spec fn render_trace(&self, h: int) -> Seq<RenderOp> {
        spec_render_ops(
            self.texts(),
            self.cy as int,
            (if (self.cx as nat) < self.cur_line().spec_width() {
                self.cx as int
            } else {
                self.cur_line().spec_width() as int
            }),
            h,
        )
    }

    /// Take exclusive hold of a buffer, starting at the first line,
    /// column zero. A view over an empty buffer first inserts one blank
    /// line (with the default tab width of eight columns).
    pub fn new(buf: Buffer) -> (r: View)
        requires
            buf.wf(),
        ensures
            r.wf(),
            r.cx == 0,
            r.cy == 0,
            buf.lines@.len() == 0 ==> r.buf.lines@.len() == 1 && r.texts() =~= seq![
                Seq::<char>::empty(),
            ] && r.buf.lines@[0].line.cfg == (LineConfig { tab_width: 8 })
                && r.buf.lines@[0].line.gs@.len() == 0 && r.buf.lines@[0].line.width == 0,
            buf.lines@.len() > 0 ==> r.buf == buf,
    {
        let mut buf = buf;
        if buf.lines.len() == 0 {
            buf.lines.push(LineMut { line: Line::new_empty(LineConfig { tab_width: 8 }) });
            proof {
                assert(buf.texts() =~= seq![Seq::<char>::empty()]);
            }
        }
        View { buf, cy: 0, cx: 0 }
    }

    /// Move the column to the end of the current line.
    pub fn last_col(&mut self)
        requires
            old(self).wf(),
        ensures
            final(self).wf(),
            final(self).buf == old(self).buf,
            final(self).cy == old(self).cy,
            final(self).cx as nat == old(self).cur_line().spec_width(),
    {
        self.cx = self.buf.lines[self.cy].as_line().cols();
    }

    /// Move the column to the start of the current line.
    pub fn first_col(&mut self)
        requires
            old(self).wf(),
        ensures
            final(self).wf(),
            final(self).buf == old(self).buf,
            final(self).cy == old(self).cy,
            final(self).cx == 0,
    {
        self.cx = 0;
    }

    /// Move the column to the first non-whitespace cluster of the current
    /// line, or to the line's width when the line is entirely blank.
    pub fn first_non_space_col(&mut self)
        requires
            old(self).wf(),
        ensures
            final(self).wf(),
            final(self).buf == old(self).buf,
            final(self).cy == old(self).cy,
            final(self).cx as nat == spec_first_non_ws(
                old(self).cur_line().gseq(),
                old(self).cur_line().tab(),
            ),
    {
        self.cx = self.buf.lines[self.cy].as_line().first_non_white_space();
    }

    /// Cursor right: one column forward, wrapping to the start of the
    /// next line from the last column; a no-op at the last column of the
    /// last line.
    pub fn next_col(&mut self)
        requires
            old(self).wf(),
        ensures
            final(self).wf(),
            final(self).buf == old(self).buf,
            ({
                let w = old(self).cur_line().spec_width();
                if (old(self).cx as nat) < w {
                    final(self).cy == old(self).cy && final(self).cx == old(self).cx + 1
                } else if old(self).cy + 1 < old(self).buf.lines@.len() {
                    final(self).cy == old(self).cy + 1 && final(self).cx == 0
                } else {
                    *final(self) == *old(self)
                }
            }),
    {
        if self.cx < self.buf.lines[self.cy].as_line().cols() {
            self.cx = self.cx + 1;
        } else if self.cy < self.buf.lines.len() - 1 {
            self.cy = self.cy + 1;
            self.cx = 0;
        }
    }

    /// Cursor left: one column back, wrapping to the end of the previous
    /// line from column zero; a no-op at column zero of the first line.
    pub fn prev_col(&mut self)
        requires
            old(self).wf(),
        ensures
            final(self).wf(),
            final(self).buf == old(self).buf,
            ({
                if old(self).cx > 0 {
                    final(self).cy == old(self).cy && final(self).cx == old(self).cx - 1
                } else if old(self).cy > 0 {
                    final(self).cy == old(self).cy - 1 && final(self).cx as nat == final(self).cur_line().spec_width()
                } else {
                    *final(self) == *old(self)
                }
            }),
    {
        if self.cx > 0 {
            self.cx = self.cx - 1;
        } else if self.cy > 0 {
            self.cy = self.cy - 1;
            self.cx = self.buf.lines[self.cy].as_line().cols();
        }
    }

    /// Forward word motion on the current line only.
    pub fn next_word(&mut self)
        requires
            old(self).wf(),
        ensures
            final(self).wf(),
            final(self).buf == old(self).buf,
            final(self).cy == old(self).cy,
            final(self).cx as int == spec_next_word_col(
                old(self).cur_line().gseq(),
                old(self).cur_line().tab(),
                old(self).cx as int,
            ),
    {
        self.cx = self.buf.lines[self.cy].as_line().next_word_col(self.cx);
    }

    /// Backward word motion on the current line only.
    pub fn prev_word(&mut self)
        requires
            old(self).wf(),
        ensures
            final(self).wf(),
            final(self).buf == old(self).buf,
            final(self).cy == old(self).cy,
            final(self).cx as int == spec_prev_word_col(
                old(self).cur_line().gseq(),
                old(self).cur_line().tab(),
                old(self).cx as int,
            ),
    {
        self.cx = self.buf.lines[self.cy].as_line().prev_word_col(self.cx);
    }

    /// Delete before the cursor: clamp the column into the line, then
    /// remove the cluster just before it and move the column back by the
    /// removed width (stopping at zero). A no-op at column zero.
    pub fn backspace(&mut self)
        requires
            old(self).wf(),
        ensures
            final(self).wf(),
            final(self).cy == old(self).cy,
            final(self).buf.lines@.len() == old(self).buf.lines@.len(),
            forall|i: int|
                0 <= i < final(self).buf.lines@.len() && i != final(self).cy as int ==> final(self).buf.lines@[i]
                    == old(self).buf.lines@[i],
            final(self).cur_line().cfg == old(self).cur_line().cfg,
            ({
                let l = old(self).cur_line();
                let w = l.spec_width();
                let col: int = if (old(self).cx as nat) < w {
                    old(self).cx as int
                } else {
                    w as int
                };
                if col == 0 {
                    *final(self) == *old(self)
                } else {
                    let k = col_to_cluster(l.gseq(), l.tab(), col - 1);
                    let cw = cwidth(l.gseq()[k], l.tab());
                    &&& final(self).cur_line().gseq() == l.gseq().remove(k)
                    &&& final(self).cx as int == (if cw <= col {
                        col - cw
                    } else {
                        0
                    })
                }
            }),
    {
        let curw = self.buf.lines[self.cy].as_line().cols();
        let col = if self.cx < curw {
            self.cx
        } else {
            curw
        };
        if col > 0 {
            let ghost l = self.cur_line();
            proof {
                lemma_col_to_cluster_at_end(l.gseq(), l.tab(), col - 1);
                lemma_col_to_cluster_le_len(l.gseq(), l.tab(), col - 1);
            }
            let w = self.buf.lines[self.cy].remove_col(col - 1);
            self.cx = if w <= col {
                col - w
            } else {
                0
            };
        }
    }

    /// Insert one tab at the cursor and advance the column by the
    /// configured tab width. The bounds are machine limits inherited from
    /// line editing.
    pub fn tab(&mut self)
        requires
            old(self).wf(),
            old(self).cur_line().width as int + old(self).cur_line().gs@.len() + 256
                <= isize::MAX as int,
            old(self).cx as int + 255 <= usize::MAX as int,
        ensures
            final(self).wf(),
            final(self).cy == old(self).cy,
            final(self).buf.lines@.len() == old(self).buf.lines@.len(),
            forall|i: int|
                0 <= i < final(self).buf.lines@.len() && i != final(self).cy as int ==> final(self).buf.lines@[i]
                    == old(self).buf.lines@[i],
            final(self).cur_line().cfg == old(self).cur_line().cfg,
            final(self).cx == old(self).cx + old(self).cur_line().cfg.tab_width,
            ({
                let l = old(self).cur_line();
                let k = col_to_cluster(l.gseq(), l.tab(), old(self).cx as int);
                &&& final(self).cur_line().gseq() == l.gseq().take(k) + seq![seq!['\t']] + l.gseq().skip(
                    k,
                )
                &&& final(self).cur_line().text() == concat_all(l.gseq().take(k)) + seq!['\t']
                    + concat_all(l.gseq().skip(k))
                &&& final(self).cur_line().spec_width() == l.spec_width() + l.cfg.tab_width
            }),
    {
        proof {
            reveal_strlit("\t");
            assert("\t"@ =~= seq!['\t']);
        }
        let w = self.buf.lines[self.cy].insert_str_col(self.cx, "\t");
        proof {
            let gt = graphemes_of("\t"@);
            lemma_singleton_cluster(gt, '\t');
            assert(gt =~= seq![seq!['\t']]);
            assert(line_width(gt, old(self).cur_line().tab()) == cwidth(
                seq!['\t'],
                old(self).cur_line().tab(),
            )) by {
                assert(gt.drop_first() =~= Seq::<Seq<char>>::empty());
                assert(line_width(Seq::<Seq<char>>::empty(), old(self).cur_line().tab()) == 0);
            }
            assert(w == old(self).cur_line().cfg.tab_width);
        }
        self.cx = self.cx + w;
    }

    /// Insert terminator-free text at the cursor and advance the column
    /// by the inserted display width, each tab counting as the configured
    /// tab width. The bounds are machine limits inherited from line
    /// editing.
    pub fn insert_str(&mut self, s: &str)
        requires
            old(self).wf(),
            no_terminators(s@),
            old(self).cur_line().width as int + old(self).cur_line().gs@.len() + 256 * s@.len()
                <= isize::MAX as int,
            old(self).cx as int + 255 * s@.len() <= usize::MAX as int,
        ensures
            final(self).wf(),
            final(self).cy == old(self).cy,
            final(self).buf.lines@.len() == old(self).buf.lines@.len(),
            forall|i: int|
                0 <= i < final(self).buf.lines@.len() && i != final(self).cy as int ==> final(self).buf.lines@[i]
                    == old(self).buf.lines@[i],
            final(self).cur_line().cfg == old(self).cur_line().cfg,
            ({
                let l = old(self).cur_line();
                let k = col_to_cluster(l.gseq(), l.tab(), old(self).cx as int);
                let w = line_width(graphemes_of(s@), l.tab());
                &&& final(self).cur_line().gseq() == l.gseq().take(k) + graphemes_of(s@) + l.gseq().skip(
                    k,
                )
                &&& final(self).cur_line().text() == concat_all(l.gseq().take(k)) + s@ + concat_all(
                    l.gseq().skip(k),
                )
                &&& final(self).cur_line().spec_width() == l.spec_width() + w
                &&& final(self).cx as int == old(self).cx + w
            }),
    {
        let w = self.buf.lines[self.cy].insert_str_col(self.cx, s);
        self.cx = self.cx + w;
    }

    /// Splice a new empty line immediately before the current line,
    /// moving neither the traversal nor the column.
    pub fn insert_line_above(&mut self)
        requires
            old(self).wf(),
        ensures
            final(self).wf(),
            final(self).cx == old(self).cx,
            final(self).cy == old(self).cy + 1,
            final(self).texts() == old(self).texts().insert(old(self).cy as int, Seq::<char>::empty()),
            final(self).cur_line() == old(self).cur_line(),
    {
        let n = self.buf.lines.len();
        let cfg = self.buf.lines[self.cy].as_line().cfg;
        self.buf.lines.insert(self.cy, LineMut { line: Line::new_empty(cfg) });
        self.cy = self.cy + 1;
        proof {
            assert(self.texts() =~= old(self).texts().insert(
                old(self).cy as int,
                Seq::<char>::empty(),
            ));
        }
    }

    /// Splice a new empty line immediately after the current line,
    /// moving neither the traversal nor the column.
    pub fn insert_line_below(&mut self)
        requires
            old(self).wf(),
        ensures
            final(self).wf(),
            final(self).cx == old(self).cx,
            final(self).cy == old(self).cy,
            final(self).texts() == old(self).texts().insert(
                old(self).cy + 1,
                Seq::<char>::empty(),
            ),
            final(self).cur_line() == old(self).cur_line(),
    {
        let n = self.buf.lines.len();
        let cfg = self.buf.lines[self.cy].as_line().cfg;
        self.buf.lines.insert(self.cy + 1, LineMut { line: Line::new_empty(cfg) });
        proof {
            assert(self.texts() =~= old(self).texts().insert(
                old(self).cy + 1,
                Seq::<char>::empty(),
            ));
        }
    }

    /// The cursor position as `(column, line index)`.
    pub fn cursor(&self) -> (r: (usize, usize))
        ensures
            r.0 == self.cx,
            r.1 == self.cy,
    {
        (self.cx, self.cy)
    }

    /// Move the traversal to the given absolute line, stopping at the
    /// last line.
    pub fn scroll_abs(&mut self, p: u16)
        requires
            old(self).wf(),
        ensures
            final(self).wf(),
            final(self).buf == old(self).buf,
            final(self).cx == old(self).cx,
            final(self).cy as int == (if p as int <= old(self).buf.lines@.len() - 1 {
                p as int
            } else {
                old(self).buf.lines@.len() - 1
            }),
    {
        let n = self.buf.lines.len();
        let p2 = p as usize;
        self.cy = if p2 < n {
            p2
        } else {
            n - 1
        };
    }

    /// Move the traversal by `d` lines (down if positive, up if
    /// negative), stopping early at the buffer's edge.
    pub fn scroll_rel(&mut self, d: i32)
        requires
            old(self).wf(),
        ensures
            final(self).wf(),
            final(self).buf == old(self).buf,
            final(self).cx == old(self).cx,
            final(self).cy as int == (if d >= 0 {
                if old(self).cy + d <= old(self).buf.lines@.len() - 1 {
                    old(self).cy + d
                } else {
                    old(self).buf.lines@.len() - 1
                }
            } else {
                if old(self).cy + d >= 0 {
                    old(self).cy + d
                } else {
                    0int
                }
            }),
    {
        if d >= 0 {
            let step = d as usize;
            let room = self.buf.lines.len() - 1 - self.cy;
            self.cy = self.cy + (if step < room {
                step
            } else {
                room
            });
        } else {
            let step = (-(d as i64)) as usize;
            self.cy = self.cy - (if step < self.cy {
                step
            } else {
                self.cy
            });
        }
    }

    /// Render a window of lines around the cursor: the current line at
    /// row `h / 2`, up to `h / 2` lines above and below (fewer at
    /// document edges, no padding), and the hardware cursor at the
    /// current row, at the column clamped into the current line. On
    /// success the renderer has performed exactly the trace
    /// `spec_render_ops`; a failed operation aborts the pass and the
    /// error is propagated unchanged. The height bound is a machine
    /// limit on cursor motion distances.
    /// The upward pass of one render: the current line and up to
    /// `hh - 1` lines above it, each written with a return and a move one
    /// row up. On failure the operations performed are exactly a prefix
    /// of the pass.
    #[verifier::loop_isolation(false)]
    fn render_up<R: Renderer>(&self, r: &mut R, hh: usize) -> (res: Result<usize, Error>)
        requires
            self.wf(),
        ensures
            final(r).spec_height() == old(r).spec_height(),
            final(r).spec_width() == old(r).spec_width(),
            ({
                let u = if hh as int <= self.cy + 1 {
                    hh as int
                } else {
                    self.cy + 1
                };
                &&& (res matches Ok(up) ==> up as int == u && final(r).ops() == old(r).ops()
                    + up_ops(self.texts(), self.cy as int, u))
                &&& (res is Err ==> ops_prefix_of(
                    old(r).ops(),
                    final(r).ops(),
                    up_ops(self.texts(), self.cy as int, u),
                ))
            }),
    {
        let ghost ts = self.texts();
        let ghost base0 = old(r).ops();
        let ghost u: int = if hh as int <= self.cy + 1 {
            hh as int
        } else {
            self.cy + 1
        };
        proof {
            lemma_up_ops_len(ts, self.cy as int, u);
        }
        let mut up: usize = 0;
        while up < hh && up <= self.cy
            invariant
                0 <= up <= hh,
                up <= self.cy + 1,
                r.spec_height() == old(r).spec_height(),
                r.spec_width() == old(r).spec_width(),
                r.ops() == base0 + up_ops(ts, self.cy as int, up as int),
            decreases hh - up,
        {
            let t = self.buf.lines[self.cy - up].as_line().to_text();
            let ghost pre = r.ops();
            match emit_line(r, t.as_str(), -1) {
                Ok(_) => {},
                Err(e) => {
                    proof {
                        assert(t@ == ts[self.cy - up]);
                        let triple = seq![
                            RenderOp::Write(t@),
                            RenderOp::Ret,
                            RenderOp::MoveY(-1int),
                        ];
                        let m = choose|m: int|
                            0 <= m <= 2 && r.ops() == pre + #[trigger] triple.take(m);
                        lemma_up_ops_split(ts, self.cy as int, up as int, u);
                        lemma_up_ops_len(ts, self.cy as int, up as int);
                        let rest = up_ops(ts, self.cy - up - 1, u - up - 1);
                        assert(up_ops(ts, self.cy - up, u - up) == triple + rest);
                        lemma_ops_take_front(triple, rest, m);
                        lemma_ops_take_concat(
                            up_ops(ts, self.cy as int, up as int),
                            triple + rest,
                            m,
                        );
                        assert(up_ops(ts, self.cy as int, u).take(3 * up + m) =~= up_ops(
                            ts,
                            self.cy as int,
                            up as int,
                        ) + triple.take(m));
                        assert(r.ops() =~= base0 + up_ops(ts, self.cy as int, u).take(
                            3 * up + m,
                        ));
                        assert(ops_prefix_of(base0, r.ops(), up_ops(ts, self.cy as int, u))) by {
                            assert(0 <= 3 * up + m <= up_ops(ts, self.cy as int, u).len());
                            assert(r.ops() == base0 + up_ops(ts, self.cy as int, u).take(
                                3 * up + m,
                            ));
                        }
                    }
                    return Err(e);
                },
            }
            proof {
                lemma_up_ops_snoc(ts, self.cy as int, up as int);
                assert(t@ == ts[self.cy - up]);
                assert(r.ops() =~= base0 + up_ops(ts, self.cy as int, up + 1));
            }
            up = up + 1;
        }
        proof {
            assert(up as int == u);
        }
        Ok(up)
    }

    /// The downward pass of one render: up to `hh` lines below the
    /// current one, each written with a return and a move one row down.
    /// On failure the operations performed are exactly a prefix of the
    /// pass.
    #[verifier::loop_isolation(false)]
    fn render_down<R: Renderer>(&self, r: &mut R, hh: usize) -> (res: Result<usize, Error>)
        requires
            self.wf(),
        ensures
            final(r).spec_height() == old(r).spec_height(),
            final(r).spec_width() == old(r).spec_width(),
            ({
                let d = if hh as int <= self.texts().len() - 1 - self.cy {
                    hh as int
                } else {
                    self.texts().len() - 1 - self.cy
                };
                &&& (res matches Ok(down) ==> down as int == d && final(r).ops() == old(r).ops()
                    + down_ops(self.texts(), self.cy + 1, d))
                &&& (res is Err ==> ops_prefix_of(
                    old(r).ops(),
                    final(r).ops(),
                    down_ops(self.texts(), self.cy + 1, d),
                ))
            }),
    {
        let ghost ts = self.texts();
        let ghost base0 = old(r).ops();
        let ghost d: int = if hh as int <= ts.len() - 1 - self.cy {
            hh as int
        } else {
            ts.len() - 1 - self.cy
        };
        let n = self.buf.lines.len();
        proof {
            lemma_down_ops_len(ts, self.cy + 1, d);
        }
        let mut down: usize = 0;
        while down < hh && self.cy + 1 + down < n
            invariant
                0 <= down <= hh,
                self.cy + 1 + down <= n,
                n == self.buf.lines@.len(),
                r.spec_height() == old(r).spec_height(),
                r.spec_width() == old(r).spec_width(),
                r.ops() == base0 + down_ops(ts, self.cy + 1, down as int),
            decreases hh - down,
        {
            let t = self.buf.lines[self.cy + 1 + down].as_line().to_text();
            let ghost pre = r.ops();
            match emit_line(r, t.as_str(), 1) {
                Ok(_) => {},
                Err(e) => {
                    proof {
                        assert(t@ == ts[self.cy + 1 + down]);
                        let triple = seq![
                            RenderOp::Write(t@),
                            RenderOp::Ret,
                            RenderOp::MoveY(1int),
                        ];
                        let m = choose|m: int|
                            0 <= m <= 2 && r.ops() == pre + #[trigger] triple.take(m);
                        lemma_down_ops_split(ts, self.cy + 1, down as int, d);
                        lemma_down_ops_len(ts, self.cy + 1, down as int);
                        let rest = down_ops(ts, self.cy + 2 + down, d - down - 1);
                        assert(down_ops(ts, self.cy + 1 + down, d - down) == triple + rest);
                        lemma_ops_take_front(triple, rest, m);
                        lemma_ops_take_concat(
                            down_ops(ts, self.cy + 1, down as int),
                            triple + rest,
                            m,
                        );
                        assert(down_ops(ts, self.cy + 1, d).take(3 * down + m) =~= down_ops(
                            ts,
                            self.cy + 1,
                            down as int,
                        ) + triple.take(m));
                        assert(r.ops() =~= base0 + down_ops(ts, self.cy + 1, d).take(
                            3 * down + m,
                        ));
                        assert(ops_prefix_of(base0, r.ops(), down_ops(ts, self.cy + 1, d))) by {
                            assert(0 <= 3 * down + m <= down_ops(ts, self.cy + 1, d).len());
                            assert(r.ops() == base0 + down_ops(ts, self.cy + 1, d).take(
                                3 * down + m,
                            ));
                        }
                    }
                    return Err(e);
                },
            }
            proof {
                lemma_down_ops_snoc(ts, self.cy + 1, down as int);
                assert(t@ == ts[self.cy + 1 + down]);
                assert(r.ops() =~= base0 + down_ops(ts, self.cy + 1, down + 1));
            }
            down = down + 1;
        }
        proof {
            assert(down as int == d);
        }
        Ok(down)
    }

    /// Render a window of lines around the cursor: the current line at
    /// row `h / 2`, up to `h / 2` lines above and below (fewer at
    /// document edges, no padding), and the hardware cursor at the
    /// current row, at the column clamped into the current line. On
    /// success the renderer has performed exactly the trace
    /// `render_trace`; on failure the pass is aborted, the error is
    /// handed back, and the operations performed are exactly a prefix of
    /// that trace. The height bound is a machine limit on cursor motion
    /// distances.
    #[verifier::loop_isolation(false)]
    #[verifier::rlimit(100)]
    pub fn render<R: Renderer>(&self, r: &mut R) -> (res: Result<(), Error>)
        requires
            self.wf(),
            old(r).spec_height() <= isize::MAX as nat,
        ensures
            final(r).spec_height() == old(r).spec_height(),
            final(r).spec_width() == old(r).spec_width(),
            res is Ok ==> final(r).ops() == old(r).ops() + self.render_trace(
                old(r).spec_height() as int,
            ),
            res is Err ==> ops_prefix_of(
                old(r).ops(),
                final(r).ops(),
                self.render_trace(old(r).spec_height() as int),
            ),
    {
        let ghost ts = self.texts();
        let ghost base = old(r).ops();
        let h = r.height();
        let hh = h / 2;
        let ghost u: int = if hh as int <= self.cy + 1 {
            hh as int
        } else {
            self.cy + 1
        };
        let ghost d: int = if hh as int <= ts.len() - 1 - self.cy {
            hh as int
        } else {
            ts.len() - 1 - self.cy
        };
        let ghost cxv: int = if (self.cx as nat) < self.cur_line().spec_width() {
            self.cx as int
        } else {
            self.cur_line().spec_width() as int
        };
        let ghost tr = self.render_trace(old(r).spec_height() as int);
        let ghost seg0 = seq![RenderOp::MoveY(hh as int)];
        let ghost segu = up_ops(ts, self.cy as int, u);
        let ghost seg1 = seq![RenderOp::MoveY(u + 1)];
        let ghost segd = down_ops(ts, self.cy + 1, d);
        let ghost tail = seq![RenderOp::MoveY(-(d + 1)), RenderOp::Ret, RenderOp::MoveX(cxv)];
        proof {
            assert(h as int == old(r).spec_height() as int);
            assert(tr == seg0 + segu + seg1 + segd + tail);
            lemma_up_ops_len(ts, self.cy as int, u);
            lemma_down_ops_len(ts, self.cy + 1, d);
            assert(tr.len() == 5 + 3 * u + 3 * d);
            assert(tr =~= seg0 + (segu + (seg1 + (segd + tail))));
        }
        match r.move_y(hh as isize) {
            Ok(_) => {},
            Err(e) => {
                proof {
                    assert(r.ops() =~= base + tr.take(0));
                    assert(ops_prefix_of(base, r.ops(), tr)) by {
                        assert(r.ops() == base + tr.take(0));
                    }
                }
                return Err(e);
            },
        }
        proof {
            assert(r.ops() =~= base + seg0);
        }
        let up: usize;
        match self.render_up(r, hh) {
            Ok(c) => {
                up = c;
            },
            Err(e) => {
                proof {
                    let k = choose|k: int|
                        0 <= k <= segu.len() && r.ops() == (base + seg0) + #[trigger] segu.take(k);
                    lemma_ops_take_front(segu, seg1 + (segd + tail), k);
                    lemma_ops_take_concat(seg0, segu + (seg1 + (segd + tail)), k);
                    assert(tr =~= seg0 + (segu + (seg1 + (segd + tail))));
                    assert(tr.take(1 + k) =~= seg0 + segu.take(k));
                    assert(r.ops() =~= base + tr.take(1 + k));
                    assert(ops_prefix_of(base, r.ops(), tr)) by {
                        assert(0 <= 1 + k <= tr.len());
                        assert(r.ops() == base + tr.take(1 + k));
                    }
                }
                return Err(e);
            },
        }
        proof {
            assert(r.ops() =~= (base + seg0) + segu);
        }
        match r.move_y((up + 1) as isize) {
            Ok(_) => {},
            Err(e) => {
                proof {
                    lemma_ops_take_front(segu, seg1 + (segd + tail), 3 * u);
                    lemma_ops_take_concat(seg0, segu + (seg1 + (segd + tail)), 3 * u);
                    assert(segu.take(3 * u) =~= segu);
                    assert(tr.take(1 + 3 * u) =~= seg0 + segu);
                    assert(r.ops() =~= base + tr.take(1 + 3 * u));
                    assert(ops_prefix_of(base, r.ops(), tr)) by {
                        assert(0 <= 1 + 3 * u <= tr.len());
                        assert(r.ops() == base + tr.take(1 + 3 * u));
                    }
                }
                return Err(e);
            },
        }
        proof {
            assert(r.ops() =~= ((base + seg0) + segu) + seg1);
            assert(r.ops() =~= base + (seg0 + segu + seg1));
        }
        let ghost head = seg0 + segu + seg1;
        let down: usize;
        match self.render_down(r, hh) {
            Ok(c) => {
                down = c;
            },
            Err(e) => {
                proof {
                    let k = choose|k: int|
                        0 <= k <= segd.len() && r.ops() == (base + head) + #[trigger] segd.take(k);
                    lemma_ops_take_front(segd, tail, k);
                    lemma_ops_take_concat(head, segd + tail, k);
                    assert(tr =~= head + (segd + tail));
                    assert(tr.take(2 + 3 * u + k) =~= head + segd.take(k));
                    assert(r.ops() =~= base + tr.take(2 + 3 * u + k));
                    assert(ops_prefix_of(base, r.ops(), tr)) by {
                        assert(0 <= 2 + 3 * u + k <= tr.len());
                        assert(r.ops() == base + tr.take(2 + 3 * u + k));
                    }
                }
                return Err(e);
            },
        }
        proof {
            assert(r.ops() =~= base + (head + segd));
        }
        match r.move_y(-((down + 1) as isize)) {
            Ok(_) => {},
            Err(e) => {
                proof {
                    lemma_ops_take_front(segd, tail, 3 * d);
                    lemma_ops_take_concat(head, segd + tail, 3 * d);
                    assert(segd.take(3 * d) =~= segd);
                    assert(tr =~= head + (segd + tail));
                    assert(tr.take(2 + 3 * u + 3 * d) =~= head + segd);
                    assert(r.ops() =~= base + tr.take(2 + 3 * u + 3 * d));
                    assert(ops_prefix_of(base, r.ops(), tr)) by {
                        assert(0 <= 2 + 3 * u + 3 * d <= tr.len());
                        assert(r.ops() == base + tr.take(2 + 3 * u + 3 * d));
                    }
                }
                return Err(e);
            },
        }
        proof {
            assert(r.ops() =~= base + ((head + segd) + tail.take(1)));
            lemma_ops_take_concat(head + segd, tail, 1);
            assert(tr =~= (head + segd) + tail);
            assert(r.ops() =~= base + tr.take(3 + 3 * u + 3 * d));
        }
        match r.ret() {
            Ok(_) => {},
            Err(e) => {
                proof {
                    assert(ops_prefix_of(base, r.ops(), tr)) by {
                        assert(0 <= 3 + 3 * u + 3 * d <= tr.len());
                        assert(r.ops() == base + tr.take(3 + 3 * u + 3 * d));
                    }
                }
                return Err(e);
            },
        }
        proof {
            assert(r.ops() =~= base + ((head + segd) + tail.take(2)));
            lemma_ops_take_concat(head + segd, tail, 2);
            assert(r.ops() =~= base + tr.take(4 + 3 * u + 3 * d));
        }
        let curw = self.buf.lines[self.cy].as_line().cols();
        let cx2 = if self.cx < curw {
            self.cx
        } else {
            curw
        };
        match r.move_x(cx2 as isize) {
            Ok(_) => {},
            Err(e) => {
                proof {
                    assert(ops_prefix_of(base, r.ops(), tr)) by {
                        assert(0 <= 4 + 3 * u + 3 * d <= tr.len());
                        assert(r.ops() == base + tr.take(4 + 3 * u + 3 * d));
                    }
                }
                return Err(e);
            },
        }
        proof {
            assert(cx2 as int == cxv);
            assert(r.ops() =~= base + tr);
        }
        Ok(())
    }
}

} // verus!
