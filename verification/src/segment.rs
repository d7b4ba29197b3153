//! Trusted boundary to the Unicode crates.
//!
//! The library stores each line as its sequence of extended grapheme
//! clusters. Splitting text into clusters and measuring a cluster's
//! display width are the two operations delegated to outside crates;
//! everything built on top of them is verified against the names
//! `graphemes_of` and `grapheme_width` declared here.

use vstd::prelude::*;

verus! {

/// The extended grapheme clusters of a character sequence, in order.
/// Names the result of `unicode_segmentation::UnicodeSegmentation::graphemes`
/// (extended clusters): a pure function of the text alone.
pub uninterp spec fn graphemes_of(s: Seq<char>) -> Seq<Seq<char>>;

/// The terminal display width of one cluster's text.
/// Names the result of `unicode_width::UnicodeWidthStr::width`:
/// a pure table lookup over the characters alone.
pub uninterp spec fn grapheme_width(g: Seq<char>) -> nat;

/// Relies on `unicode_segmentation::UnicodeSegmentation::graphemes` with
/// extended cluster boundaries: it partitions the string into non-empty
/// substrings, in order, whose concatenation is the original string.
#[verifier::external_body]
pub(crate) fn split_graphemes(s: &str) -> (r: Vec<String>)
    ensures
        r@.map_values(|g: String| g@) == graphemes_of(s@),
        concat_all(r@.map_values(|g: String| g@)) == s@,
        forall|i: int| 0 <= i < r@.len() ==> (#[trigger] r@[i]@).len() > 0,
{
    unicode_segmentation::UnicodeSegmentation::graphemes(s, true)
        .map(|g: &str| g.to_string())
        .collect()
}

/// Relies on `unicode_width::UnicodeWidthStr::width`: the displayed width
/// of the string in columns, where each character contributes between 0
/// and 3 columns (this version's tables go up to 3).
#[verifier::external_body]
pub(crate) fn grapheme_display_width(g: &str) -> (r: usize)
    ensures
        r == grapheme_width(g@),
        r <= 3 * g@.len(),
{
    unicode_width::UnicodeWidthStr::width(g)
}

/// The concatenation of a sequence of character sequences.
pub open spec fn concat_all(gss: Seq<Seq<char>>) -> Seq<char>
    decreases gss.len(),
{
    if gss.len() == 0 {
        Seq::empty()
    } else {
        gss[0] + concat_all(gss.drop_first())
    }
}

/// Concatenation distributes over splitting a sequence of sequences at `i`.
pub proof fn lemma_concat_all_split(gss: Seq<Seq<char>>, i: int)
    requires
        0 <= i <= gss.len(),
    ensures
        concat_all(gss) == concat_all(gss.take(i)) + concat_all(gss.skip(i)),
    decreases i,
{
    if i == 0 {
        assert(gss.take(0) =~= Seq::<Seq<char>>::empty());
        assert(gss.skip(0) =~= gss);
        assert(concat_all(gss) =~= concat_all(gss.take(0)) + concat_all(gss.skip(0)));
    } else {
        lemma_concat_all_split(gss.drop_first(), i - 1);
        assert(gss.take(i).drop_first() =~= gss.drop_first().take(i - 1));
        assert(gss.skip(i) =~= gss.drop_first().skip(i - 1));
        assert(concat_all(gss.take(i)) == gss[0] + concat_all(gss.drop_first().take(i - 1)));
        assert(concat_all(gss) == gss[0] + concat_all(gss.drop_first()));
        assert(gss[0] + (concat_all(gss.drop_first().take(i - 1)) + concat_all(
            gss.drop_first().skip(i - 1),
        )) =~= (gss[0] + concat_all(gss.drop_first().take(i - 1))) + concat_all(
            gss.drop_first().skip(i - 1),
        ));
    }
}

/// Every character of every piece occurs in the concatenation.
pub proof fn lemma_concat_all_contains(gss: Seq<Seq<char>>, i: int, j: int)
    requires
        0 <= i < gss.len(),
        0 <= j < gss[i].len(),
    ensures
        concat_all(gss).contains(gss[i][j]),
    decreases i,
{
    if i == 0 {
        assert(concat_all(gss)[j] == gss[0][j]);
    } else {
        lemma_concat_all_contains(gss.drop_first(), i - 1, j);
        let rest = concat_all(gss.drop_first());
        let k = choose|k: int| 0 <= k < rest.len() && rest[k] == gss[i][j];
        assert(concat_all(gss)[gss[0].len() + k] == gss[i][j]);
    }
}

} // verus!
