//! What holds of the distance and the changeset of any two texts.

use vstd::prelude::*;
use crate::lcs::{
    common_of, lemma_backtrack_len, lemma_backtrack_of_equal, lemma_common_is_longest,
    lemma_lcs_len_symmetric,
};
use crate::merge::{
    absorbed, count, edited_text, grouped_onto, lemma_alignment_counts, lemma_grouped_first,
    lemma_joined_step, lemma_merged_covers_both, lemma_script_step, original_text, piece, script,
    well_grouped,
};
use crate::tokens::{joined, lemma_join_of_tokens, lemma_token_count, tokens_of};
use crate::{alignment_of, changeset_of, distance_of, Kind, Span};

verus! {

/// The distance from `orig` to `edit` is the distance from `edit` to `orig`.
pub proof fn lemma_distance_symmetric(orig: Seq<char>, edit: Seq<char>, split: Seq<char>)
    ensures
        distance_of(orig, edit, split) == distance_of(edit, orig, split),
{
    let a = tokens_of(orig, split);
    let b = tokens_of(edit, split);
    lemma_backtrack_len(a, b, a.len() as int, b.len() as int);
    lemma_backtrack_len(b, a, b.len() as int, a.len() as int);
    lemma_lcs_len_symmetric(a, b, a.len() as int, b.len() as int);
}

/// The distance is not negative and not more than the number of tokens of
/// both texts together.
pub proof fn lemma_distance_bounds(orig: Seq<char>, edit: Seq<char>, split: Seq<char>)
    ensures
        0 <= distance_of(orig, edit, split) <= tokens_of(orig, split).len() + tokens_of(
            edit,
            split,
        ).len(),
{
    lemma_common_is_longest(tokens_of(orig, split), tokens_of(edit, split));
}

/// The distance of two texts of fewer than `i32::MAX - 1` characters
/// together fits into an `i32`, whatever the separator.
pub proof fn lemma_distance_of_short_texts(orig: Seq<char>, edit: Seq<char>, split: Seq<char>)
    requires
        orig.len() + edit.len() + 2 <= i32::MAX,
    ensures
        distance_of(orig, edit, split) <= i32::MAX,
{
    lemma_token_count(orig, split);
    lemma_token_count(edit, split);
    lemma_distance_bounds(orig, edit, split);
}

/// The distance is the number of tokens that the changeset removes or adds.
pub proof fn lemma_distance_counts_changes(orig: Seq<char>, edit: Seq<char>, split: Seq<char>)
    ensures
        distance_of(orig, edit, split) == count(alignment_of(orig, edit, split), Kind::Rem)
            + count(alignment_of(orig, edit, split), Kind::Add),
{
    let a = tokens_of(orig, split);
    let b = tokens_of(edit, split);
    lemma_common_is_longest(a, b);
    lemma_alignment_counts(a, b, common_of(a, b));
}

/// The entries of kind `Same` and `Rem`, read in order, are the first text,
/// and those of kind `Same` and `Add` are the second. No entry is empty and
/// no two neighbours are of the same kind.
pub proof fn lemma_changeset_covers_both(orig: Seq<char>, edit: Seq<char>, split: Seq<char>)
    ensures
        original_text(changeset_of(orig, edit, split)) == orig,
        edited_text(changeset_of(orig, edit, split)) == edit,
        well_grouped(changeset_of(orig, edit, split)),
{
    let a = tokens_of(orig, split);
    let b = tokens_of(edit, split);
    lemma_merged_covers_both(a, b, common_of(a, b), split);
    lemma_join_of_tokens(orig, split);
    lemma_join_of_tokens(edit, split);
}

/// The changeset that reports all of `text` as shared: one entry, or none
/// for the empty text.
pub open spec fn unchanged(text: Seq<char>) -> Seq<Span> {
    if text.len() > 0 {
        seq![Span { kind: Kind::Same, text }]
    } else {
        Seq::empty()
    }
}

/// With a sequence as its own guide every token is shared, and grouping
/// puts them all into one entry.
proof fn lemma_script_of_equal(a: Seq<Seq<char>>, sep: Seq<char>, i: int, text: Seq<char>)
    requires
        0 <= i <= a.len(),
    ensures
        grouped_onto(unchanged(text), script(a, a, a, sep, i, i, i)) == unchanged(
            text + joined(a.skip(i), sep),
        ),
    decreases a.len() - i,
{
    if i < a.len() {
        let next = piece(Kind::Same, a[i], sep, i + 1 < a.len());
        let rest = script(a, a, a, sep, i + 1, i + 1, i + 1);
        lemma_script_step(a, a, a, sep, i, i, i);
        lemma_grouped_first(unchanged(text), next, rest);
        lemma_joined_step(a, sep, i);
        lemma_script_of_equal(a, sep, i + 1, text + next.text);
        assert(absorbed(unchanged(text), next) =~= unchanged(text + next.text));
        assert((text + next.text) + joined(a.skip(i + 1), sep) =~= text + (next.text + joined(
            a.skip(i + 1),
            sep,
        )));
    }
}

/// A text has distance 0 from itself, and its changeset is one shared entry
/// that holds the text, or no entry where the text is empty.
pub proof fn lemma_diff_of_equal(text: Seq<char>, split: Seq<char>)
    ensures
        distance_of(text, text, split) == 0,
        changeset_of(text, text, split) == unchanged(text),
{
    let a = tokens_of(text, split);
    let nothing = Seq::<char>::empty();
    lemma_backtrack_of_equal(a, a.len() as int);
    assert(a.take(a.len() as int) =~= a);
    lemma_script_of_equal(a, split, 0, nothing);
    lemma_join_of_tokens(text, split);
}

} // verus!
