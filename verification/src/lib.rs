//! Finds the difference between two texts.
//!
//! Both texts are cut into tokens (characters, words or lines, as the
//! separator says), the longest common subsequence of the two token
//! sequences is found, and the tokens are sorted into those that both texts
//! have, those that only the second has and those that only the first has.
//! Runs of tokens of one kind are reported as one entry of the changeset.
//!
//! An entry holds its tokens with the separators that stand between and
//! behind them in the text, so that the entries of one text, read in order,
//! are that text to the letter:
//!
//! ```text
//! diff("Diffs are awesome", "Diffs are cool", " ")
//!     == (2, [Same("Diffs are "), Rem("awesome"), Add("cool")])
//! ```

use vstd::prelude::*;

pub mod color;
pub mod laws;
pub mod lcs;
pub mod merge;
pub mod subseq;
pub mod tokens;

use crate::lcs::{common_of, common_tokens, distance, lcs};
use crate::merge::{
    alignment, count, edited_text, merge_tokens, merged, original_text, well_grouped,
};
use crate::tokens::{lemma_deep_view, tokenize, tokens_of};

verus! {

/// What an entry of a changeset says of its text.
pub enum Kind {
    /// Both texts have it.
    Same,
    /// Only the second text has it.
    Add,
    /// Only the first text has it.
    Rem,
}

/// An entry of a changeset as the contracts see it: a kind and the
/// characters it covers.
pub struct Span {
    pub kind: Kind,
    pub text: Seq<char>,
}

/// Defines the contents of a changeset.
/// Changesets are delivered in order of appearance in the texts.
/// Neighbouring sequences of the same kind are grouped into one `Difference`.
#[derive(PartialEq, Debug)]
pub enum Difference {
    /// Sequences that are the same
    Same(String),
    /// Sequences that are an addition (don't appear in the first text)
    Add(String),
    /// Sequences that are a removal (don't appear in the second text)
    Rem(String),
}

impl View for Difference {
    type V = Span;

    open spec fn view(&self) -> Span {
        match self {
            Difference::Same(text) => Span { kind: Kind::Same, text: text@ },
            Difference::Add(text) => Span { kind: Kind::Add, text: text@ },
            Difference::Rem(text) => Span { kind: Kind::Rem, text: text@ },
        }
    }
}

impl DeepView for Difference {
    type V = Span;

    open spec fn deep_view(&self) -> Span {
        self.view()
    }
}

/// The edit distance of two texts under the separator `split`: the number
/// of tokens of either text that are not part of their longest common
/// subsequence.
pub open spec fn distance_of(orig: Seq<char>, edit: Seq<char>, split: Seq<char>) -> int {
    distance(tokens_of(orig, split), tokens_of(edit, split))
}

/// What the changeset says of every token of the two texts, in the order in
/// which it takes them: shared, removed or added.
pub open spec fn alignment_of(orig: Seq<char>, edit: Seq<char>, split: Seq<char>) -> Seq<Kind> {
    let a = tokens_of(orig, split);
    let b = tokens_of(edit, split);
    alignment(a, b, common_of(a, b), 0, 0, 0)
}

/// The changeset that leads from `orig` to `edit` under the separator
/// `split`: the text of the tokens as `alignment_of` sorts them, with
/// neighbours of one kind in one entry.
pub open spec fn changeset_of(orig: Seq<char>, edit: Seq<char>, split: Seq<char>) -> Seq<Span> {
    let a = tokens_of(orig, split);
    let b = tokens_of(edit, split);
    merged(a, b, common_of(a, b), split)
}

/// Calculates the edit distance and the changeset for two given strings.
/// The first string is assumed to be the "original", the second to be an
/// edited version of the first. The third parameter specifies how to split
/// the input strings, leading to a more or less exact comparison.
///
/// Common splits are `""` for char-level, `" "` for word-level and `"\n"` for line-level.
///
/// Outputs the edit distance (how much the two strings differ) and a "changeset", that is
/// a `Vec` containing `Difference`s.
///
/// The distance is the number of tokens that the changeset removes or adds.
/// The entries of kind `Same` and `Rem`, read in order, are `orig`, and
/// those of kind `Same` and `Add` are `edit`. No entry is empty, and no two
/// neighbours are of the same kind.
pub fn diff(orig: &str, edit: &str, split: &str) -> (res: (i32, Vec<Difference>))
    requires
        distance_of(orig@, edit@, split@) <= i32::MAX,
    ensures
        res.0 == distance_of(orig@, edit@, split@),
        res.1.deep_view() == changeset_of(orig@, edit@, split@),
        0 <= res.0 <= tokens_of(orig@, split@).len() + tokens_of(edit@, split@).len(),
        res.0 == count(alignment_of(orig@, edit@, split@), Kind::Rem) + count(
            alignment_of(orig@, edit@, split@),
            Kind::Add,
        ),
        original_text(res.1.deep_view()) == orig@,
        edited_text(res.1.deep_view()) == edit@,
        well_grouped(res.1.deep_view()),
{
    let a = tokenize(orig, split);
    let b = tokenize(edit, split);
    proof {
        laws::lemma_changeset_covers_both(orig@, edit@, split@);
        laws::lemma_distance_bounds(orig@, edit@, split@);
        laws::lemma_distance_counts_changes(orig@, edit@, split@);
    }
    let (dist, common) = lcs(&a, &b);
    (dist, merge_tokens(&a, &b, &common, split))
}

/// Calculates the changeset for two given strings, as `diff` does, without
/// their distance. This is for texts of any size.
pub fn changeset(orig: &str, edit: &str, split: &str) -> (changes: Vec<Difference>)
    ensures
        changes.deep_view() == changeset_of(orig@, edit@, split@),
        original_text(changes.deep_view()) == orig@,
        edited_text(changes.deep_view()) == edit@,
        well_grouped(changes.deep_view()),
{
    let a = tokenize(orig, split);
    let b = tokenize(edit, split);
    let common = common_tokens(&a, &b);
    proof {
        laws::lemma_changeset_covers_both(orig@, edit@, split@);
    }
    merge_tokens(&a, &b, &common, split)
}

/// Does what `diff` does for any two texts: `None` where the distance does
/// not fit into an `i32`, and what `diff` gives otherwise.
pub fn checked_diff(orig: &str, edit: &str, split: &str) -> (res: Option<(i32, Vec<Difference>)>)
    ensures
        res is Some <==> distance_of(orig@, edit@, split@) <= i32::MAX,
        res matches Some(found) ==> {
            &&& found.0 == distance_of(orig@, edit@, split@)
            &&& found.1.deep_view() == changeset_of(orig@, edit@, split@)
            &&& 0 <= found.0 <= tokens_of(orig@, split@).len() + tokens_of(edit@, split@).len()
            &&& found.0 == count(alignment_of(orig@, edit@, split@), Kind::Rem) + count(
                alignment_of(orig@, edit@, split@),
                Kind::Add,
            )
            &&& original_text(found.1.deep_view()) == orig@
            &&& edited_text(found.1.deep_view()) == edit@
            &&& well_grouped(found.1.deep_view())
        },
{
    let a = tokenize(orig, split);
    let b = tokenize(edit, split);
    let common = common_tokens(&a, &b);
    proof {
        lemma_deep_view(&a);
        lemma_deep_view(&b);
        lemma_deep_view(&common);
        laws::lemma_changeset_covers_both(orig@, edit@, split@);
        laws::lemma_distance_bounds(orig@, edit@, split@);
        laws::lemma_distance_counts_changes(orig@, edit@, split@);
    }
    let removed: usize = a.len() - common.len();
    let added: usize = b.len() - common.len();
    if removed > 0x7fff_ffff || added > 0x7fff_ffff - removed {
        return None;
    }
    Some(((removed + added) as i32, merge_tokens(&a, &b, &common, split)))
}

} // verus!
