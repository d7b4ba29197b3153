//! One line of text, segmented into extended grapheme clusters.
//!
//! A `Line` owns its cluster sequence together with the tab-width
//! configuration and a cached total display width. Columns are measured in
//! display-width units: a tab cluster counts as the configured tab width,
//! every other cluster as its terminal display width. `LineMut` is a line
//! open for editing: it adds the grapheme-level insert and remove
//! operations.

use vstd::prelude::*;

use crate::charclass::{CharClass, spec_class};
use crate::segment::{
    concat_all, grapheme_display_width, grapheme_width, graphemes_of, lemma_concat_all_contains,
    lemma_concat_all_split, split_graphemes,
};
use vstd::string::{StrSliceExecFns, StringExecFns};

verus! {

/// Tab-width configuration, threaded into every line operation.
#[derive(Debug, Clone, Copy, PartialEq, Eq, Structural)]
pub struct LineConfig {
    pub tab_width: u8,
}

/// A well-formed cluster is non-empty and holds no line terminator.
pub open spec fn cluster_ok(g: Seq<char>) -> bool {
    &&& g.len() > 0
    &&& forall|i: int| 0 <= i < g.len() ==> g[i] != '\n' && g[i] != '\r'
}

/// A character sequence free of line terminators.
pub open spec fn no_terminators(s: Seq<char>) -> bool {
    forall|i: int| 0 <= i < s.len() ==> s[i] != '\n' && s[i] != '\r'
}

/// Display width of one cluster: the configured tab width for a tab,
/// otherwise the cluster's terminal display width.
pub open spec fn cwidth(g: Seq<char>, tab: nat) -> nat {
    if g == seq!['\t'] {
        tab
    } else {
        grapheme_width(g)
    }
}

/// Total display width of a cluster sequence.
pub open spec fn line_width(gss: Seq<Seq<char>>, tab: nat) -> nat
    decreases gss.len(),
{
    if gss.len() == 0 {
        0
    } else {
        cwidth(gss[0], tab) + line_width(gss.drop_first(), tab)
    }
}

/// The motion class of a cluster: the class of its first character.
pub open spec fn cls(g: Seq<char>) -> CharClass {
    spec_class(g[0])
}

/// The cluster index a column resolves to: the first cluster whose
/// cumulative display width exceeds `col`, or the cluster count if the
/// column lies at or past the end of the line. Clusters of width zero
/// are never landed on.
pub open spec fn col_to_cluster(gss: Seq<Seq<char>>, tab: nat, col: int) -> int
    decreases gss.len(),
{
    if gss.len() == 0 {
        0
    } else if cwidth(gss[0], tab) > col {
        0
    } else {
        1 + col_to_cluster(gss.drop_first(), tab, col - cwidth(gss[0], tab))
    }
}

/// Splitting a cluster sequence splits its total width.
pub proof fn lemma_line_width_split(gss: Seq<Seq<char>>, tab: nat, i: int)
    requires
        0 <= i <= gss.len(),
    ensures
        line_width(gss, tab) == line_width(gss.take(i), tab) + line_width(gss.skip(i), tab),
    decreases i,
{
    if i == 0 {
        assert(gss.take(0) =~= Seq::<Seq<char>>::empty());
        assert(gss.skip(0) =~= gss);
    } else {
        lemma_line_width_split(gss.drop_first(), tab, i - 1);
        assert(gss.take(i).drop_first() =~= gss.drop_first().take(i - 1));
        assert(gss.skip(i) =~= gss.drop_first().skip(i - 1));
        assert(line_width(gss.take(i), tab) == cwidth(gss[0], tab) + line_width(
            gss.drop_first().take(i - 1),
            tab,
        ));
    }
}

/// Extending a prefix by one cluster adds that cluster's width.
pub proof fn lemma_line_width_snoc(gss: Seq<Seq<char>>, tab: nat, i: int)
    requires
        0 <= i < gss.len(),
    ensures
        line_width(gss.take(i + 1), tab) == line_width(gss.take(i), tab) + cwidth(gss[i], tab),
{
    lemma_line_width_split(gss.take(i + 1), tab, i);
    assert(gss.take(i + 1).take(i) =~= gss.take(i));
    let last = gss.take(i + 1).skip(i);
    assert(last =~= seq![gss[i]]);
    assert(last.drop_first() =~= Seq::<Seq<char>>::empty());
    assert(line_width(Seq::<Seq<char>>::empty(), tab) == 0);
    assert(line_width(last, tab) == cwidth(gss[i], tab));
}

/// Extending a prefix by one cluster appends that cluster's text.
pub proof fn lemma_concat_all_snoc(gss: Seq<Seq<char>>, i: int)
    requires
        0 <= i < gss.len(),
    ensures
        concat_all(gss.take(i + 1)) == concat_all(gss.take(i)) + gss[i],
{
    lemma_concat_all_split(gss.take(i + 1), i);
    assert(gss.take(i + 1).take(i) =~= gss.take(i));
    let last = gss.take(i + 1).skip(i);
    assert(last =~= seq![gss[i]]);
    assert(last.drop_first() =~= Seq::<Seq<char>>::empty());
    assert(concat_all(Seq::<Seq<char>>::empty()) == Seq::<char>::empty());
    assert(concat_all(last) =~= gss[i]);
}

/// A concatenation of non-empty pieces is at least as long as the number
/// of pieces.
pub proof fn lemma_concat_all_len_ge(gss: Seq<Seq<char>>)
    requires
        forall|i: int| 0 <= i < gss.len() ==> (#[trigger] gss[i]).len() > 0,
    ensures
        concat_all(gss).len() >= gss.len(),
    decreases gss.len(),
{
    if gss.len() > 0 {
        lemma_concat_all_len_ge(gss.drop_first());
    }
}

/// The resolved cluster index never exceeds the cluster count.
pub proof fn lemma_col_to_cluster_le_len(gss: Seq<Seq<char>>, tab: nat, col: int)
    ensures
        0 <= col_to_cluster(gss, tab, col) <= gss.len(),
    decreases gss.len(),
{
    if gss.len() > 0 && !(cwidth(gss[0], tab) > col) {
        lemma_col_to_cluster_le_len(gss.drop_first(), tab, col - cwidth(gss[0], tab));
    }
}

/// A column resolves past every cluster exactly when it lies at or past
/// the line's total width.
pub proof fn lemma_col_to_cluster_at_end(gss: Seq<Seq<char>>, tab: nat, col: int)
    requires
        col >= 0,
    ensures
        col_to_cluster(gss, tab, col) == gss.len() <==> col >= line_width(gss, tab),
    decreases gss.len(),
{
    if gss.len() > 0 {
        if cwidth(gss[0], tab) > col {
        } else {
            lemma_col_to_cluster_at_end(gss.drop_first(), tab, col - cwidth(gss[0], tab));
        }
        lemma_col_to_cluster_le_len(gss.drop_first(), tab, col - cwidth(gss[0], tab));
    }
}

/// Law: the cluster index a column resolves to is monotonically
/// non-decreasing in the column. Together with
/// `lemma_col_to_cluster_at_end` (any column at or past the line's width
/// resolves to the cluster count, the index of the line's end), this
/// pins down the column-to-offset primitive.
pub proof fn lemma_col_to_cluster_monotone(gss: Seq<Seq<char>>, tab: nat, c1: int, c2: int)
    requires
        0 <= c1 <= c2,
    ensures
        col_to_cluster(gss, tab, c1) <= col_to_cluster(gss, tab, c2),
    decreases gss.len(),
{
    if gss.len() > 0 {
        let cw = cwidth(gss[0], tab);
        if cw > c1 {
            lemma_col_to_cluster_le_len(gss, tab, c2);
        } else {
            lemma_col_to_cluster_monotone(gss.drop_first(), tab, c1 - cw, c2 - cw);
        }
    }
}

/// On a line of single-width clusters, a column resolves to the cluster
/// index equal to it, clamped to the cluster count.
pub proof fn lemma_col_to_cluster_unit(gss: Seq<Seq<char>>, tab: nat, col: int)
    requires
        col >= 0,
        forall|i: int| 0 <= i < gss.len() ==> cwidth(#[trigger] gss[i], tab) == 1,
    ensures
        col_to_cluster(gss, tab, col) == (if col <= gss.len() {
            col
        } else {
            gss.len() as int
        }),
    decreases gss.len(),
{
    if gss.len() > 0 && !(cwidth(gss[0], tab) > col) {
        assert(forall|i: int|
            0 <= i < gss.drop_first().len() ==> cwidth(#[trigger] gss.drop_first()[i], tab) == 1);
        lemma_col_to_cluster_unit(gss.drop_first(), tab, col - 1);
    }
}

/// One removal at a column, at the cluster-sequence level: exactly what
/// `LineMut::remove_col` does to the cluster sequence.
pub open spec fn remove_at_col(gss: Seq<Seq<char>>, tab: nat, col: int) -> Seq<Seq<char>> {
    let k = col_to_cluster(gss, tab, col);
    if k < gss.len() {
        gss.remove(k)
    } else {
        gss
    }
}

/// `n` removals at one column, each applied to the previous result.
pub open spec fn remove_n_at_col(gss: Seq<Seq<char>>, tab: nat, col: int, n: nat) -> Seq<
    Seq<char>,
>
    decreases n,
{
    if n == 0 {
        gss
    } else {
        remove_n_at_col(remove_at_col(gss, tab, col), tab, col, (n - 1) as nat)
    }
}

/// Law: splicing single-width clusters in at a column of a line of
/// single-width clusters — what `LineMut::insert_str_col` does to the
/// cluster sequence — and then removing as many clusters at the same
/// column restores the original line. This is the insert-then-remove
/// round trip in the single-width (in particular ASCII, tab-free) case.
pub proof fn lemma_insert_remove_round_trip(
    gss: Seq<Seq<char>>,
    tab: nat,
    ins: Seq<Seq<char>>,
    col: int,
)
    requires
        forall|i: int| 0 <= i < gss.len() ==> cwidth(#[trigger] gss[i], tab) == 1,
        forall|i: int| 0 <= i < ins.len() ==> cwidth(#[trigger] ins[i], tab) == 1,
        0 <= col <= gss.len(),
    ensures
        col_to_cluster(gss, tab, col) == col,
        remove_n_at_col(
            gss.take(col) + ins + gss.skip(col),
            tab,
            col,
            ins.len(),
        ) == gss,
    decreases ins.len(),
{
    lemma_col_to_cluster_unit(gss, tab, col);
    let x = gss.take(col) + ins + gss.skip(col);
    if ins.len() == 0 {
        assert(x =~= gss);
    } else {
        assert(forall|i: int| 0 <= i < x.len() ==> cwidth(#[trigger] x[i], tab) == 1);
        lemma_col_to_cluster_unit(x, tab, col);
        assert(col_to_cluster(x, tab, col) == col);
        let x2 = gss.take(col) + ins.drop_first() + gss.skip(col);
        assert(x.remove(col) =~= x2);
        lemma_insert_remove_round_trip(gss, tab, ins.drop_first(), col);
        assert(remove_n_at_col(x, tab, col, ins.len()) == remove_n_at_col(
            x2,
            tab,
            col,
            (ins.len() - 1) as nat,
        ));
    }
}

/// One line of text as a sequence of grapheme clusters, with its
/// configuration and cached total display width.
#[derive(Debug)]
pub struct Line {
    pub gs: Vec<String>,
    pub width: usize,
    pub cfg: LineConfig,
}

impl Line {
    /// The cluster sequence, viewed as character sequences.
    pub open spec fn gseq(&self) -> Seq<Seq<char>> {
        self.gs@.map_values(|g: String| g@)
    }

    /// The line's text: the concatenation of its clusters.
    pub open spec fn text(&self) -> Seq<char> {
        concat_all(self.gseq())
    }

    /// The configured tab width.
    pub open spec fn tab(&self) -> nat {
        self.cfg.tab_width as nat
    }

    /// The line's total display width, at the spec level.
    pub open spec fn spec_width(&self) -> nat {
        line_width(self.gseq(), self.tab())
    }

    /// Well-formedness: the cached width is the true width, every cluster
    /// is non-empty and terminator-free, and width plus cluster count fits
    /// comfortably in the machine (so that column arithmetic cannot
    /// overflow).
    pub open spec fn wf(&self) -> bool {
        &&& self.width as nat == self.spec_width()
        &&& self.spec_width() + self.gseq().len() <= isize::MAX as nat
        &&& forall|i: int| 0 <= i < self.gseq().len() ==> cluster_ok(#[trigger] self.gseq()[i])
    }

    /// An empty line.
    pub fn new_empty(cfg: LineConfig) -> (r: Line)
        ensures
            r.wf(),
            r.gseq() =~= Seq::<Seq<char>>::empty(),
            r.text() =~= Seq::<char>::empty(),
            r.cfg == cfg,
    {
        let r = Line { gs: Vec::new(), width: 0, cfg };
        proof {
            assert(r.gseq() =~= Seq::<Seq<char>>::empty());
        }
        r
    }

    /// Build a line from terminator-free text by segmenting it into
    /// grapheme clusters. The length bound is a machine limit: it keeps
    /// the total display width within `isize::MAX`.
    #[verifier::loop_isolation(false)]
    pub fn from_str(s: &str, cfg: LineConfig) -> (r: Line)
        requires
            no_terminators(s@),
            256 * s@.len() <= isize::MAX as int,
        ensures
            r.wf(),
            r.gseq() == graphemes_of(s@),
            r.text() == s@,
            r.cfg == cfg,
    {
        let gs = split_graphemes(s);
        let ghost gss = gs@.map_values(|g: String| g@);
        proof {
            lemma_clusters_ok(gss, s@);
            lemma_concat_all_len_ge(gss);
        }
        let w = clusters_width(&gs, cfg.tab_width);
        Line { gs, width: w, cfg }
    }

    /// The line's total display width in columns.
    pub fn cols(&self) -> (r: usize)
        requires
            self.wf(),
        ensures
            r as nat == self.spec_width(),
    {
        self.width
    }

    /// Resolve a column to a cluster index: the first cluster whose
    /// cumulative display width exceeds `col`, or the cluster count when
    /// `col` lies at or past the end of the line.
    #[verifier::loop_isolation(false)]
    pub fn col2idx(&self, col: usize) -> (r: usize)
        requires
            self.wf(),
        ensures
            r as int == col_to_cluster(self.gseq(), self.tab(), col as int),
            r <= self.gs@.len(),
    {
        let gss = Ghost(self.gseq());
        let tab = Ghost(self.tab());
        let n = self.gs.len();
        let mut i: usize = 0;
        let mut w: usize = 0;
        proof {
            assert(gss@.skip(0) =~= gss@);
        }
        while i < n
            invariant
                0 <= i <= n,
                w <= col,
                col_to_cluster(gss@, tab@, col as int) == i + col_to_cluster(
                    gss@.skip(i as int),
                    tab@,
                    col - w,
                ),
            decreases n - i,
        {
            let cw = cluster_width_of(&self.gs[i], self.cfg.tab_width);
            proof {
                assert(gss@.skip(i as int)[0] == gss@[i as int]);
            }
            if cw > col - w {
                proof {
                    assert(col_to_cluster(gss@.skip(i as int), tab@, col - w) == 0);
                }
                return i;
            }
            proof {
                assert(gss@.skip(i as int).drop_first() =~= gss@.skip(i + 1));
            }
            w = w + cw;
            i = i + 1;
        }
        proof {
            assert(gss@.skip(n as int) =~= Seq::<Seq<char>>::empty());
        }
        i
    }

    /// The line's text as one owned string.
    #[verifier::loop_isolation(false)]
    pub fn to_text(&self) -> (r: String)
        ensures
            r@ == self.text(),
    {
        let mut out = String::new();
        let n = self.gs.len();
        let mut i: usize = 0;
        proof {
            assert(self.gseq().take(0) =~= Seq::<Seq<char>>::empty());
        }
        while i < n
            invariant
                0 <= i <= n,
                out@ == concat_all(self.gseq().take(i as int)),
            decreases n - i,
        {
            out.append(self.gs[i].as_str());
            proof {
                lemma_concat_all_snoc(self.gseq(), i as int);
            }
            i = i + 1;
        }
        proof {
            assert(self.gseq().take(n as int) =~= self.gseq());
        }
        out
    }

    /// The motion class of the cluster at index `i`.
    pub(crate) fn class_at(&self, i: usize) -> (r: CharClass)
        requires
            self.wf(),
            i < self.gs@.len(),
        ensures
            r == cls(self.gseq()[i as int]),
    {
        let g: &String = &self.gs[i];
        proof {
            assert(cluster_ok(self.gseq()[i as int]));
            assert(g@ == self.gseq()[i as int]);
        }
        CharClass::from_char(g.as_str().get_char(0))
    }
}

/// The number of consecutive clusters of class `cl` starting at index `i`.
pub open spec fn run_len(gss: Seq<Seq<char>>, cl: CharClass, i: int) -> int
    decreases gss.len() - i,
{
    if i < 0 || i >= gss.len() || cls(gss[i]) != cl {
        0
    } else {
        1 + run_len(gss, cl, i + 1)
    }
}

/// The number of consecutive clusters of class `cl` ending at index `j`,
/// scanning downward.
pub open spec fn run_len_back(gss: Seq<Seq<char>>, cl: CharClass, j: int) -> int
    decreases j + 1,
{
    if j < 0 || j >= gss.len() || cls(gss[j]) != cl {
        0
    } else {
        1 + run_len_back(gss, cl, j - 1)
    }
}

/// A downward run ending at `j` has at most `j + 1` clusters.
pub proof fn lemma_run_len_back_le(gss: Seq<Seq<char>>, cl: CharClass, j: int)
    ensures
        0 <= run_len_back(gss, cl, j),
        run_len_back(gss, cl, j) <= (if j < 0 { 0int } else { j + 1 }),
    decreases j + 1,
{
    if !(j < 0 || j >= gss.len() || cls(gss[j]) != cl) {
        lemma_run_len_back_le(gss, cl, j - 1);
    }
}

/// The column where a forward word motion from `col` lands: past the run
/// of clusters sharing the class at `col`, and past a following
/// whitespace run; a fixed point at or past the end of the line. The
/// scan counts one column per cluster, whatever the cluster's true
/// display width.
pub open spec fn spec_next_word_col(gss: Seq<Seq<char>>, tab: nat, col: int) -> int {
    let k = col_to_cluster(gss, tab, col);
    if k >= gss.len() {
        col
    } else {
        let cl = cls(gss[k]);
        let p1 = k + 1 + run_len(gss, cl, k + 1);
        if p1 >= gss.len() {
            col + (gss.len() - 1 - k)
        } else {
            let ret1 = col + (p1 - k);
            if cls(gss[p1]) == CharClass::WhiteSpace {
                let p2 = p1 + 1 + run_len(gss, CharClass::WhiteSpace, p1 + 1);
                if p2 >= gss.len() {
                    ret1 + (gss.len() - 1 - p1)
                } else {
                    ret1 + (p2 - p1)
                }
            } else {
                ret1
            }
        }
    }
}

/// The column where a backward word motion from `col` lands: across the
/// whitespace run before the cursor, if any, and then across the run
/// before it; zero when no boundary exists. The scan counts one column
/// per cluster and stops at column zero.
pub open spec fn spec_prev_word_col(gss: Seq<Seq<char>>, tab: nat, col: int) -> int {
    let k = col_to_cluster(gss, tab, col);
    if k <= 0 || col <= 0 {
        0
    } else {
        let cl0 = cls(gss[k - 1]);
        if cl0 == CharClass::WhiteSpace {
            let m = run_len_back(gss, CharClass::WhiteSpace, k - 1);
            if m >= k {
                if col >= m {
                    col - m
                } else {
                    0
                }
            } else {
                let jb = k - 1 - m;
                let d = m + run_len_back(gss, cls(gss[jb]), jb);
                if col >= d {
                    col - d
                } else {
                    0
                }
            }
        } else {
            let d = run_len_back(gss, cl0, k - 1);
            if col >= d {
                col - d
            } else {
                0
            }
        }
    }
}

/// The column of the first non-whitespace cluster, or the line's width
/// when the line is entirely blank.
pub open spec fn spec_first_non_ws(gss: Seq<Seq<char>>, tab: nat) -> nat
    decreases gss.len(),
{
    if gss.len() == 0 {
        0
    } else if cls(gss[0]) != CharClass::WhiteSpace {
        0
    } else {
        cwidth(gss[0], tab) + spec_first_non_ws(gss.drop_first(), tab)
    }
}

impl Line {
    /// First index at or after `start` whose cluster is not of class `cl`,
    /// or the cluster count.
    #[verifier::loop_isolation(false)]
    fn run_end(&self, start: usize, cl: CharClass) -> (r: usize)
        requires
            self.wf(),
            start <= self.gs@.len(),
        ensures
            r as int == start + run_len(self.gseq(), cl, start as int),
            start <= r <= self.gs@.len(),
    {
        let n = self.gs.len();
        let mut i: usize = start;
        while i < n
            invariant
                start <= i <= n,
                run_len(self.gseq(), cl, start as int) == i - start + run_len(
                    self.gseq(),
                    cl,
                    i as int,
                ),
            decreases n - i,
        {
            if self.class_at(i) != cl {
                return i;
            }
            i = i + 1;
        }
        i
    }

    /// The number of consecutive clusters of class `cl` ending at `j`,
    /// scanning downward.
    #[verifier::loop_isolation(false)]
    fn run_back_count(&self, j: usize, cl: CharClass) -> (r: usize)
        requires
            self.wf(),
            j < self.gs@.len(),
        ensures
            r as int == run_len_back(self.gseq(), cl, j as int),
            r <= j + 1,
    {
        let mut i: usize = j;
        loop
            invariant
                0 <= i <= j,
                run_len_back(self.gseq(), cl, j as int) == (j - i) + run_len_back(
                    self.gseq(),
                    cl,
                    i as int,
                ),
            decreases i,
        {
            if self.class_at(i) != cl {
                return j - i;
            }
            if i == 0 {
                proof {
                    assert(run_len_back(self.gseq(), cl, -1) == 0);
                }
                return j + 1;
            }
            i = i - 1;
        }
    }

    /// The column of the first non-whitespace cluster, or the line's
    /// width when the line is entirely blank.
    #[verifier::loop_isolation(false)]
    #[verifier::rlimit(30)]
    pub fn first_non_white_space(&self) -> (r: usize)
        requires
            self.wf(),
        ensures
            r as nat == spec_first_non_ws(self.gseq(), self.tab()),
            r <= self.width,
    {
        let gss = Ghost(self.gseq());
        let tab = Ghost(self.tab());
        let n = self.gs.len();
        let mut i: usize = 0;
        let mut w: usize = 0;
        proof {
            assert(gss@.skip(0) =~= gss@);
            lemma_line_width_split(gss@, tab@, 0);
        }
        while i < n
            invariant
                0 <= i <= n,
                w as int == line_width(gss@.take(i as int), tab@),
                line_width(gss@, tab@) == w + line_width(gss@.skip(i as int), tab@),
                spec_first_non_ws(gss@, tab@) == w + spec_first_non_ws(gss@.skip(i as int), tab@),
                forall|jj: int| 0 <= jj < i ==> cls(#[trigger] gss@[jj]) == CharClass::WhiteSpace,
            decreases n - i,
        {
            proof {
                assert(gss@.skip(i as int)[0] == gss@[i as int]);
            }
            if self.class_at(i) != CharClass::WhiteSpace {
                return w;
            }
            let cw = cluster_width_of(&self.gs[i], self.cfg.tab_width);
            proof {
                lemma_line_width_snoc(gss@, tab@, i as int);
                lemma_line_width_split(gss@, tab@, i + 1);
                assert(gss@.skip(i as int).drop_first() =~= gss@.skip(i + 1));
            }
            w = w + cw;
            i = i + 1;
        }
        proof {
            assert(gss@.skip(n as int) =~= Seq::<Seq<char>>::empty());
        }
        w
    }

    /// The landing column of a forward word motion from `col`: advance
    /// past the current run, and past a following whitespace run;
    /// a fixed point at or past the end of the line.
    pub fn next_word_col(&self, col: usize) -> (r: usize)
        requires
            self.wf(),
        ensures
            r as int == spec_next_word_col(self.gseq(), self.tab(), col as int),
    {
        let gss = Ghost(self.gseq());
        let tab = Ghost(self.tab());
        let n = self.gs.len();
        let k = self.col2idx(col);
        if k >= n {
            return col;
        }
        proof {
            lemma_col_to_cluster_at_end(gss@, tab@, col as int);
            assert(col < line_width(gss@, tab@));
        }
        let cl = self.class_at(k);
        let p1 = self.run_end(k + 1, cl);
        if p1 >= n {
            return col + (n - 1 - k);
        }
        let ret1 = col + (p1 - k);
        if self.class_at(p1) == CharClass::WhiteSpace {
            let p2 = self.run_end(p1 + 1, CharClass::WhiteSpace);
            if p2 >= n {
                ret1 + (n - 1 - p1)
            } else {
                ret1 + (p2 - p1)
            }
        } else {
            ret1
        }
    }

    /// The landing column of a backward word motion from `col`: step back
    /// across the whitespace run before the cursor, if any, then across
    /// the run before it; zero when no boundary exists.
    pub fn prev_word_col(&self, col: usize) -> (r: usize)
        requires
            self.wf(),
        ensures
            r as int == spec_prev_word_col(self.gseq(), self.tab(), col as int),
    {
        let k = self.col2idx(col);
        if k == 0 || col == 0 {
            return 0;
        }
        let cl0 = self.class_at(k - 1);
        if cl0 == CharClass::WhiteSpace {
            let m = self.run_back_count(k - 1, CharClass::WhiteSpace);
            if m >= k {
                if col >= m {
                    col - m
                } else {
                    0
                }
            } else {
                let jb = k - 1 - m;
                let clb = self.class_at(jb);
                proof {
                    lemma_run_len_back_le(self.gseq(), clb, jb as int);
                }
                let m2 = self.run_back_count(jb, clb);
                let d = m + m2;
                if col >= d {
                    col - d
                } else {
                    0
                }
            }
        } else {
            let m2 = self.run_back_count(k - 1, cl0);
            if col >= m2 {
                col - m2
            } else {
                0
            }
        }
    }
}

/// Concatenating cluster sequences adds their widths.
pub proof fn lemma_line_width_concat(a: Seq<Seq<char>>, b: Seq<Seq<char>>, tab: nat)
    ensures
        line_width(a + b, tab) == line_width(a, tab) + line_width(b, tab),
{
    lemma_line_width_split(a + b, tab, a.len() as int);
    assert((a + b).take(a.len() as int) =~= a);
    assert((a + b).skip(a.len() as int) =~= b);
}

/// Concatenating cluster sequences concatenates their texts.
pub proof fn lemma_concat_all_concat(a: Seq<Seq<char>>, b: Seq<Seq<char>>)
    ensures
        concat_all(a + b) == concat_all(a) + concat_all(b),
{
    lemma_concat_all_split(a + b, a.len() as int);
    assert((a + b).take(a.len() as int) =~= a);
    assert((a + b).skip(a.len() as int) =~= b);
}

/// Removing one cluster subtracts its width.
pub proof fn lemma_line_width_remove(gss: Seq<Seq<char>>, tab: nat, k: int)
    requires
        0 <= k < gss.len(),
    ensures
        line_width(gss, tab) == line_width(gss.remove(k), tab) + cwidth(gss[k], tab),
{
    lemma_line_width_split(gss, tab, k);
    lemma_line_width_split(gss.skip(k), tab, 1);
    assert(gss.skip(k).take(1) =~= seq![gss[k]]);
    assert(seq![gss[k]].drop_first() =~= Seq::<Seq<char>>::empty());
    assert(line_width(Seq::<Seq<char>>::empty(), tab) == 0);
    assert(gss.skip(k).skip(1) =~= gss.skip(k + 1));
    lemma_line_width_concat(gss.take(k), gss.skip(k + 1), tab);
    assert(gss.remove(k) =~= gss.take(k) + gss.skip(k + 1));
}

/// Clusters cut from terminator-free text are non-empty and
/// terminator-free themselves.
pub proof fn lemma_clusters_ok(gss: Seq<Seq<char>>, s: Seq<char>)
    requires
        concat_all(gss) == s,
        no_terminators(s),
        forall|i: int| 0 <= i < gss.len() ==> (#[trigger] gss[i]).len() > 0,
    ensures
        forall|i: int| 0 <= i < gss.len() ==> cluster_ok(#[trigger] gss[i]),
{
    assert forall|i: int| 0 <= i < gss.len() implies cluster_ok(#[trigger] gss[i]) by {
        assert forall|j: int| 0 <= j < gss[i].len() implies gss[i][j] != '\n' && gss[i][j]
            != '\r' by {
            lemma_concat_all_contains(gss, i, j);
            let c = gss[i][j];
            let k = choose|k: int| 0 <= k < concat_all(gss).len() && concat_all(gss)[k] == c;
            assert(s[k] == c);
        }
    }
}

/// A segmentation of a one-character text is a single one-character
/// cluster.
pub proof fn lemma_singleton_cluster(gss: Seq<Seq<char>>, c: char)
    requires
        concat_all(gss) == seq![c],
        forall|i: int| 0 <= i < gss.len() ==> (#[trigger] gss[i]).len() > 0,
    ensures
        gss == seq![seq![c]],
{
    assert(concat_all(gss).len() == 1);
    if gss.len() == 0 {
        assert(concat_all(gss) == Seq::<char>::empty());
        assert(false);
    } else if gss.len() >= 2 {
        lemma_concat_all_len_ge(gss.drop_first());
        assert(concat_all(gss).len() >= gss[0].len() + 1);
        assert(false);
    } else {
        assert(gss.drop_first() =~= Seq::<Seq<char>>::empty());
        assert(concat_all(Seq::<Seq<char>>::empty()) == Seq::<char>::empty());
        assert(gss[0] =~= seq![c]);
        assert(gss =~= seq![seq![c]]);
    }
}

/// Total display width of a cluster vector; the bound on the text length
/// is a machine limit that rules out overflow of the running sum.
#[verifier::loop_isolation(false)]
fn clusters_width(gs: &Vec<String>, tab_width: u8) -> (r: usize)
    requires
        255 * concat_all(gs@.map_values(|g: String| g@)).len() <= isize::MAX as int,
    ensures
        r as int == line_width(gs@.map_values(|g: String| g@), tab_width as nat),
        r as int <= 255 * concat_all(gs@.map_values(|g: String| g@)).len(),
{
    let ghost gss = gs@.map_values(|g: String| g@);
    let n = gs.len();
    let mut w: usize = 0;
    let mut i: usize = 0;
    while i < n
        invariant
            0 <= i <= n,
            w as int == line_width(gss.take(i as int), tab_width as nat),
            w as int <= 255 * concat_all(gss.take(i as int)).len(),
            concat_all(gss.take(i as int)).len() <= concat_all(gss).len(),
        decreases n - i,
    {
        let cw = cluster_width_of(&gs[i], tab_width);
        proof {
            lemma_line_width_snoc(gss, tab_width as nat, i as int);
            lemma_concat_all_snoc(gss, i as int);
            lemma_concat_all_split(gss, i + 1);
            assert(concat_all(gss.take(i + 1)).len() <= concat_all(gss).len());
            assert(w + cw <= 255 * concat_all(gss.take(i + 1)).len());
        }
        w = w + cw;
        i = i + 1;
    }
    proof {
        assert(gss.take(n as int) =~= gss);
    }
    w
}

/// A line open for editing: grapheme-level insert and remove at a column.
#[derive(Debug)]
pub struct LineMut {
    pub line: Line,
}

impl LineMut {
    /// Well-formedness of the underlying line.
    pub open spec fn wf(&self) -> bool {
        self.line.wf()
    }

    /// A read-only view of the underlying line.
    pub fn as_line(&self) -> (r: &Line)
        ensures
            *r == self.line,
    {
        &self.line
    }

    /// Remove the single grapheme cluster the column resolves to and
    /// return its display width. A no-op returning width zero when the
    /// column lies at or past the end of the line (in particular, always
    /// at or past the width of the line).
    pub fn remove_col(&mut self, col: usize) -> (r: usize)
        requires
            old(self).wf(),
        ensures
            final(self).wf(),
            final(self).line.cfg == old(self).line.cfg,
            ({
                let gss = old(self).line.gseq();
                let tab = old(self).line.tab();
                let k = col_to_cluster(gss, tab, col as int);
                &&& k < gss.len() ==> final(self).line.gseq() == gss.remove(k) && r as nat
                    == cwidth(gss[k], tab)
                &&& k >= gss.len() ==> *final(self) == *old(self) && r == 0
            }),
            (col as nat) >= old(self).line.spec_width() ==> *final(self) == *old(self) && r == 0,
            (col as nat) < old(self).line.spec_width() ==> final(self).line.spec_width()
                == old(self).line.spec_width() - r,
    {
        let ghost gss = self.line.gseq();
        let ghost tab = self.line.tab();
        proof {
            lemma_col_to_cluster_at_end(gss, tab, col as int);
        }
        let k = self.line.col2idx(col);
        if k >= self.line.gs.len() {
            return 0;
        }
        let g = self.line.gs.remove(k);
        let w = cluster_width_of(&g, self.line.cfg.tab_width);
        proof {
            assert(self.line.gseq() =~= gss.remove(k as int));
            lemma_line_width_remove(gss, tab, k as int);
            assert forall|i: int|
                0 <= i < self.line.gseq().len() implies cluster_ok(
                #[trigger] self.line.gseq()[i],
            ) by {
                if i < k {
                    assert(self.line.gseq()[i] == gss[i]);
                } else {
                    assert(self.line.gseq()[i] == gss[i + 1]);
                }
            }
        }
        self.line.width = self.line.width - w;
        w
    }

    /// Splice terminator-free text in at the cluster boundary the column
    /// resolves to, and return the spliced text's display width, each tab
    /// counting as the configured tab width. The length bound is a
    /// machine limit: the line's new width must stay within `isize::MAX`.
    #[verifier::loop_isolation(false)]
    pub fn insert_str_col(&mut self, col: usize, s: &str) -> (r: usize)
        requires
            old(self).wf(),
            no_terminators(s@),
            old(self).line.width as int + old(self).line.gs@.len() + 256 * s@.len()
                <= isize::MAX as int,
        ensures
            final(self).wf(),
            final(self).line.cfg == old(self).line.cfg,
            ({
                let gss = old(self).line.gseq();
                let tab = old(self).line.tab();
                let k = col_to_cluster(gss, tab, col as int);
                &&& final(self).line.gseq() == gss.take(k) + graphemes_of(s@) + gss.skip(k)
                &&& final(self).line.text() == concat_all(gss.take(k)) + s@ + concat_all(
                    gss.skip(k),
                )
                &&& r as nat == line_width(graphemes_of(s@), tab)
                &&& final(self).line.spec_width() == old(self).line.spec_width() + r
            }),
            r as int <= 255 * s@.len(),
            concat_all(graphemes_of(s@)) == s@,
            forall|i: int|
                0 <= i < graphemes_of(s@).len() ==> (#[trigger] graphemes_of(s@)[i]).len() > 0,
    {
        let ghost gss = self.line.gseq();
        let ghost tab = self.line.tab();
        let ghost old_line = self.line;
        let k = self.line.col2idx(col);
        let ins = split_graphemes(s);
        let ghost insq = ins@.map_values(|g: String| g@);
        proof {
            lemma_clusters_ok(insq, s@);
            lemma_concat_all_len_ge(insq);
        }
        let w = clusters_width(&ins, self.line.cfg.tab_width);
        let n = ins.len();
        let mut j: usize = 0;
        while j < n
            invariant
                0 <= j <= n,
                self.line.gs@ == old_line.gs@.take(k as int) + ins@.take(j as int)
                    + old_line.gs@.skip(k as int),
                self.line.width == old_line.width,
                self.line.cfg == old_line.cfg,
            decreases n - j,
        {
            let g = ins[j].clone();
            proof {
                assert(g@ == insq[j as int]);
            }
            self.line.gs.insert(k + j, g);
            proof {
                assert(self.line.gs@ =~= old_line.gs@.take(k as int) + ins@.take(j + 1)
                    + old_line.gs@.skip(k as int));
            }
            j = j + 1;
        }
        proof {
            assert(ins@.take(n as int) =~= ins@);
            let newq = self.line.gseq();
            assert(newq =~= gss.take(k as int) + insq + gss.skip(k as int));
            lemma_line_width_concat(gss.take(k as int) + insq, gss.skip(k as int), tab);
            lemma_line_width_concat(gss.take(k as int), insq, tab);
            assert((gss.take(k as int) + insq) + gss.skip(k as int) =~= newq);
            lemma_concat_all_concat(gss.take(k as int) + insq, gss.skip(k as int));
            lemma_concat_all_concat(gss.take(k as int), insq);
            lemma_line_width_split(gss, tab, k as int);
            assert forall|i: int| 0 <= i < newq.len() implies cluster_ok(#[trigger] newq[i]) by {
                if i < k {
                    assert(newq[i] == gss[i]);
                } else if i < k + insq.len() {
                    assert(newq[i] == insq[i - k]);
                } else {
                    assert(newq[i] == gss[i - insq.len()]);
                }
            }
        }
        self.line.width = self.line.width + w;
        w
    }
}

/// Whether a cluster is exactly one tab character.
fn is_tab_cluster(g: &String) -> (r: bool)
    ensures
        r == (g@ == seq!['\t']),
{
    let s = g.as_str();
    if s.unicode_len() == 1 {
        let c = s.get_char(0);
        proof {
            if c == '\t' {
                assert(g@ =~= seq!['\t']);
            } else {
                assert(g@ != seq!['\t']) by {
                    assert(g@[0] == c);
                    assert(seq!['\t'][0] == '\t');
                }
            }
        }
        c == '\t'
    } else {
        proof {
            assert(seq!['\t'].len() == 1);
        }
        false
    }
}

/// Display width of one cluster, with the configured tab width for a tab.
pub(crate) fn cluster_width_of(g: &String, tab_width: u8) -> (r: usize)
    ensures
        r as nat == cwidth(g@, tab_width as nat),
        r as int <= 255 * g@.len(),
{
    if is_tab_cluster(g) {
        proof {
            assert(g@.len() == 1);
        }
        tab_width as usize
    } else {
        let r = grapheme_display_width(g.as_str());
        proof {
            assert(3 * g@.len() <= 255 * g@.len()) by (nonlinear_arith)
                requires
                    g@.len() >= 0,
            ;
        }
        r
    }
}

} // verus!
