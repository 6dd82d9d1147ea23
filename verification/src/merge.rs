//! Turning two token sequences and a common subsequence into a changeset.
//!
//! The merge goes through both token sequences with the common subsequence
//! as its guide, and says of every token whether both texts have it
//! (`Same`), only the first (`Rem`) or only the second (`Add`): this is the
//! alignment.
//!
//! Every token then becomes a piece of text: the token and, unless it is the
//! last token of its text, the separator behind it. Where a shared token is
//! the last of one text only, the separator that the other text has behind
//! it is a piece of its own. The pieces of the first text, read in order,
//! are therefore the first text, and those of the second are the second.
//!
//! The changeset is made of the pieces in order: a piece without characters
//! is left out, and a piece of the kind of the entry before it is added to
//! that entry.

use vstd::prelude::*;
use crate::subseq::{
    is_subsequence, lemma_subsequence_skips_first, lemma_subsequence_takes_first,
};
use crate::tokens::{joined, lemma_deep_view, lemma_join_of_tokens, tokenize, tokens_of};
use crate::{Difference, Kind, Span};

verus! {

/// The piece for one token: the token, and the separator where `more` says
/// that another token follows in the same text.
pub open spec fn piece(kind: Kind, token: Seq<char>, sep: Seq<char>, more: bool) -> Span {
    Span { kind, text: if more { token + sep } else { token } }
}

/// The pieces for a token that both texts have. `more_orig` and `more_edit`
/// say whether another token follows it in the first and in the second text.
pub open spec fn shared_pieces(
    token: Seq<char>,
    sep: Seq<char>,
    more_orig: bool,
    more_edit: bool,
) -> Seq<Span> {
    if more_orig == more_edit {
        seq![piece(Kind::Same, token, sep, more_orig)]
    } else if more_orig {
        seq![piece(Kind::Same, token, sep, false), Span { kind: Kind::Rem, text: sep }]
    } else {
        seq![piece(Kind::Same, token, sep, false), Span { kind: Kind::Add, text: sep }]
    }
}

/// What the merge says of the next token, with the tokens of `a` before `i`,
/// those of `b` before `j` and those of the guide `c` before `k` behind it.
/// As long as the guide has a token, the tokens of `a` before the next one
/// equal to it are removals, then the tokens of `b` before the next one
/// equal to it are additions, and then the token itself is shared. When the
/// guide has no token left, what is left of `a` is removed and then what is
/// left of `b` is added.
pub open spec fn next_kind(
    a: Seq<Seq<char>>,
    b: Seq<Seq<char>>,
    c: Seq<Seq<char>>,
    i: int,
    j: int,
    k: int,
) -> Kind
    recommends
        0 <= i < a.len() || 0 <= j < b.len(),
{
    if 0 <= i < a.len() && 0 <= j < b.len() && 0 <= k < c.len() {
        if a[i] != c[k] {
            Kind::Rem
        } else if b[j] != c[k] {
            Kind::Add
        } else {
            Kind::Same
        }
    } else if 0 <= i < a.len() {
        Kind::Rem
    } else {
        Kind::Add
    }
}

/// The place in `a` behind a token of the kind `kind` at `i`.
pub open spec fn next_orig(kind: Kind, i: int) -> int {
    if kind == Kind::Add {
        i
    } else {
        i + 1
    }
}

/// The place in `b` behind a token of the kind `kind` at `j`.
pub open spec fn next_edit(kind: Kind, j: int) -> int {
    if kind == Kind::Rem {
        j
    } else {
        j + 1
    }
}

/// The place in the guide behind a token of the kind `kind` at `k`.
pub open spec fn next_guide(kind: Kind, k: int) -> int {
    if kind == Kind::Same {
        k + 1
    } else {
        k
    }
}

/// The alignment of `a` from `i` on and `b` from `j` on under the guide `c`
/// from `k` on: the kinds of their tokens in the order in which the merge
/// takes them. A shared token stands once for both sequences.
pub open spec fn alignment(
    a: Seq<Seq<char>>,
    b: Seq<Seq<char>>,
    c: Seq<Seq<char>>,
    i: int,
    j: int,
    k: int,
) -> Seq<Kind>
    decreases a.len() - i, b.len() - j,
{
    if 0 <= i < a.len() || 0 <= j < b.len() {
        let kind = next_kind(a, b, c, i, j, k);
        seq![kind] + alignment(
            a,
            b,
            c,
            next_orig(kind, i),
            next_edit(kind, j),
            next_guide(kind, k),
        )
    } else {
        Seq::empty()
    }
}

/// The pieces for one token of the kind `kind`: the token of `a` at `i`, or
/// for an addition the token of `b` at `j`.
pub open spec fn step_pieces(
    kind: Kind,
    a: Seq<Seq<char>>,
    b: Seq<Seq<char>>,
    sep: Seq<char>,
    i: int,
    j: int,
) -> Seq<Span> {
    match kind {
        Kind::Rem => seq![piece(Kind::Rem, a[i], sep, i + 1 < a.len())],
        Kind::Add => seq![piece(Kind::Add, b[j], sep, j + 1 < b.len())],
        Kind::Same => shared_pieces(a[i], sep, i + 1 < a.len(), j + 1 < b.len()),
    }
}

/// The pieces for the tokens of `a` from `i` on and of `b` from `j` on, whose
/// kinds `steps` lists.
pub open spec fn pieces(
    steps: Seq<Kind>,
    a: Seq<Seq<char>>,
    b: Seq<Seq<char>>,
    sep: Seq<char>,
    i: int,
    j: int,
) -> Seq<Span>
    decreases steps.len(),
{
    if steps.len() == 0 {
        Seq::empty()
    } else {
        let kind = steps.first();
        step_pieces(kind, a, b, sep, i, j) + pieces(
            steps.drop_first(),
            a,
            b,
            sep,
            next_orig(kind, i),
            next_edit(kind, j),
        )
    }
}

/// The pieces for what is left of `a` from `i` on and of `b` from `j` on
/// under the guide `c` from `k` on.
pub open spec fn script(
    a: Seq<Seq<char>>,
    b: Seq<Seq<char>>,
    c: Seq<Seq<char>>,
    sep: Seq<char>,
    i: int,
    j: int,
    k: int,
) -> Seq<Span> {
    pieces(alignment(a, b, c, i, j, k), a, b, sep, i, j)
}

/// How many of the steps are of the kind `kind`.
pub open spec fn count(steps: Seq<Kind>, kind: Kind) -> nat
    decreases steps.len(),
{
    if steps.len() == 0 {
        0
    } else if steps.first() == kind {
        1 + count(steps.drop_first(), kind)
    } else {
        count(steps.drop_first(), kind)
    }
}

/// The changeset `changes` with one more piece taken in.
pub open spec fn absorbed(changes: Seq<Span>, piece: Span) -> Seq<Span> {
    if piece.text.len() == 0 {
        changes
    } else if changes.len() > 0 && changes.last().kind == piece.kind {
        changes.drop_last().push(
            Span { kind: piece.kind, text: changes.last().text + piece.text },
        )
    } else {
        changes.push(piece)
    }
}

/// The changeset `changes` with all of `pieces` taken in, in order.
pub open spec fn grouped_onto(changes: Seq<Span>, pieces: Seq<Span>) -> Seq<Span>
    decreases pieces.len(),
{
    if pieces.len() == 0 {
        changes
    } else {
        grouped_onto(absorbed(changes, pieces.first()), pieces.drop_first())
    }
}

/// The changeset for the token sequences `a` and `b` with the guide `c`.
pub open spec fn merged(
    a: Seq<Seq<char>>,
    b: Seq<Seq<char>>,
    c: Seq<Seq<char>>,
    sep: Seq<char>,
) -> Seq<Span> {
    grouped_onto(Seq::empty(), script(a, b, c, sep, 0, 0, 0))
}

/// The texts of all entries that are not of the kind `without`, one after
/// another.
pub open spec fn side(spans: Seq<Span>, without: Kind) -> Seq<char>
    decreases spans.len(),
{
    if spans.len() == 0 {
        Seq::empty()
    } else if spans.last().kind == without {
        side(spans.drop_last(), without)
    } else {
        side(spans.drop_last(), without) + spans.last().text
    }
}

/// What the entries say the first text was: the shared and the removed
/// texts, in order.
pub open spec fn original_text(changes: Seq<Span>) -> Seq<char> {
    side(changes, Kind::Add)
}

/// What the entries say the second text is: the shared and the added texts,
/// in order.
pub open spec fn edited_text(changes: Seq<Span>) -> Seq<char> {
    side(changes, Kind::Rem)
}

/// Whether no entry is without characters and no two neighbours are of the
/// same kind.
pub open spec fn well_grouped(changes: Seq<Span>) -> bool {
    &&& forall|i: int| 0 <= i < changes.len() ==> (#[trigger] changes[i]).text.len() > 0
    &&& forall|i: int, j: int|
        0 <= i && j == i + 1 && j < changes.len() ==> (#[trigger] changes[i]).kind != (
        #[trigger] changes[j]).kind
}

/// The texts of a sequence of entries that is made of two parts are those
/// of the first part and then those of the second.
pub proof fn lemma_side_concat(x: Seq<Span>, y: Seq<Span>, without: Kind)
    ensures
        side(x + y, without) == side(x, without) + side(y, without),
    decreases y.len(),
{
    if y.len() > 0 {
        assert((x + y).drop_last() =~= x + y.drop_last());
        lemma_side_concat(x, y.drop_last(), without);
    }
}

/// The text of a single entry, or nothing where it is of the kind left out.
pub proof fn lemma_side_single(span: Span, without: Kind)
    ensures
        side(seq![span], without) == if span.kind == without {
            Seq::<char>::empty()
        } else {
            span.text
        },
{
    assert(seq![span].drop_last() =~= Seq::<Span>::empty());
    assert(side(Seq::<Span>::empty(), without) =~= Seq::<char>::empty());
}

/// Taking a piece in changes the texts as putting it at the end would.
pub proof fn lemma_absorbed_side(changes: Seq<Span>, piece: Span, without: Kind)
    ensures
        side(absorbed(changes, piece), without) == side(changes.push(piece), without),
{
    let longer = changes.push(piece);
    assert(longer.drop_last() =~= changes);
    if piece.text.len() > 0 && changes.len() > 0 && changes.last().kind == piece.kind {
        let both = Span { kind: piece.kind, text: changes.last().text + piece.text };
        let shorter = changes.drop_last();
        assert(shorter.push(both).drop_last() =~= shorter);
        if piece.kind != without {
            assert(side(changes, without) == side(shorter, without) + changes.last().text);
        } else {
            assert(side(changes, without) == side(shorter, without));
        }
    }
}

/// Grouping changes no text: the entries cover what the pieces covered.
pub proof fn lemma_grouped_side(changes: Seq<Span>, pieces: Seq<Span>, without: Kind)
    ensures
        side(grouped_onto(changes, pieces), without) == side(changes + pieces, without),
    decreases pieces.len(),
{
    if pieces.len() > 0 {
        let first = pieces.first();
        let rest = pieces.drop_first();
        lemma_grouped_side(absorbed(changes, first), rest, without);
        lemma_side_concat(absorbed(changes, first), rest, without);
        lemma_absorbed_side(changes, first, without);
        lemma_side_concat(changes.push(first), rest, without);
        assert(changes.push(first) + rest =~= changes + pieces);
    }
}

/// Taking a piece in keeps a changeset well grouped.
pub proof fn lemma_absorbed_well_grouped(changes: Seq<Span>, piece: Span)
    requires
        well_grouped(changes),
    ensures
        well_grouped(absorbed(changes, piece)),
{
    let after = absorbed(changes, piece);
    if piece.text.len() > 0 {
        assert forall|i: int, j: int| 0 <= i && j == i + 1 && j < after.len() implies (
        #[trigger] after[i]).kind != (#[trigger] after[j]).kind by {}
    }
}

/// Grouping keeps a changeset well grouped.
pub proof fn lemma_grouped_well_grouped(changes: Seq<Span>, pieces: Seq<Span>)
    requires
        well_grouped(changes),
    ensures
        well_grouped(grouped_onto(changes, pieces)),
    decreases pieces.len(),
{
    if pieces.len() > 0 {
        lemma_absorbed_well_grouped(changes, pieces.first());
        lemma_grouped_well_grouped(absorbed(changes, pieces.first()), pieces.drop_first());
    }
}

/// Grouping pieces that start with `first` is taking `first` in and then
/// grouping the others.
pub proof fn lemma_grouped_first(changes: Seq<Span>, first: Span, rest: Seq<Span>)
    ensures
        grouped_onto(changes, seq![first] + rest) == grouped_onto(absorbed(changes, first), rest),
{
    assert((seq![first] + rest).drop_first() =~= rest);
}

/// The tokens from `i` on, joined, start with the piece of token `i`.
pub proof fn lemma_joined_step(tokens: Seq<Seq<char>>, sep: Seq<char>, i: int)
    requires
        0 <= i < tokens.len(),
    ensures
        joined(tokens.skip(i), sep) == piece(Kind::Same, tokens[i], sep, i + 1 < tokens.len()).text
            + joined(tokens.skip(i + 1), sep),
{
    assert(tokens.skip(i).drop_first() =~= tokens.skip(i + 1));
}

/// The pieces for a shared token cover the token's piece in either text.
pub proof fn lemma_shared_pieces_sides(
    token: Seq<char>,
    sep: Seq<char>,
    more_orig: bool,
    more_edit: bool,
)
    ensures
        original_text(shared_pieces(token, sep, more_orig, more_edit)) == piece(
            Kind::Same,
            token,
            sep,
            more_orig,
        ).text,
        edited_text(shared_pieces(token, sep, more_orig, more_edit)) == piece(
            Kind::Same,
            token,
            sep,
            more_edit,
        ).text,
{
    let shared = piece(Kind::Same, token, sep, false);
    lemma_side_single(piece(Kind::Same, token, sep, more_orig), Kind::Add);
    lemma_side_single(piece(Kind::Same, token, sep, more_orig), Kind::Rem);
    if more_orig != more_edit {
        let kind = if more_orig {
            Kind::Rem
        } else {
            Kind::Add
        };
        let behind = Span { kind, text: sep };
        assert(shared_pieces(token, sep, more_orig, more_edit) =~= seq![shared] + seq![behind]);
        lemma_side_concat(seq![shared], seq![behind], Kind::Add);
        lemma_side_concat(seq![shared], seq![behind], Kind::Rem);
        lemma_side_single(shared, Kind::Add);
        lemma_side_single(shared, Kind::Rem);
        lemma_side_single(behind, Kind::Add);
        lemma_side_single(behind, Kind::Rem);
    }
}

/// The pieces while a token is left are those of the next token and then
/// those of what follows it.
pub proof fn lemma_script_step(
    a: Seq<Seq<char>>,
    b: Seq<Seq<char>>,
    c: Seq<Seq<char>>,
    sep: Seq<char>,
    i: int,
    j: int,
    k: int,
)
    requires
        0 <= i < a.len() || 0 <= j < b.len(),
    ensures
        script(a, b, c, sep, i, j, k) == step_pieces(next_kind(a, b, c, i, j, k), a, b, sep, i, j)
            + script(
            a,
            b,
            c,
            sep,
            next_orig(next_kind(a, b, c, i, j, k), i),
            next_edit(next_kind(a, b, c, i, j, k), j),
            next_guide(next_kind(a, b, c, i, j, k), k),
        ),
{
    let kind = next_kind(a, b, c, i, j, k);
    let rest = alignment(a, b, c, next_orig(kind, i), next_edit(kind, j), next_guide(kind, k));
    assert(alignment(a, b, c, i, j, k).drop_first() =~= rest);
}

/// Where no token is left there is no piece.
pub proof fn lemma_script_end(
    a: Seq<Seq<char>>,
    b: Seq<Seq<char>>,
    c: Seq<Seq<char>>,
    sep: Seq<char>,
    i: int,
    j: int,
    k: int,
)
    requires
        i >= a.len(),
        j >= b.len(),
    ensures
        script(a, b, c, sep, i, j, k) == Seq::<Span>::empty(),
{
}

/// The pieces of the first text, read in order, are its tokens joined with
/// the separator, and so are those of the second.
pub proof fn lemma_script_sides(
    a: Seq<Seq<char>>,
    b: Seq<Seq<char>>,
    c: Seq<Seq<char>>,
    sep: Seq<char>,
    i: int,
    j: int,
    k: int,
)
    requires
        0 <= i <= a.len(),
        0 <= j <= b.len(),
    ensures
        original_text(script(a, b, c, sep, i, j, k)) == joined(a.skip(i), sep),
        edited_text(script(a, b, c, sep, i, j, k)) == joined(b.skip(j), sep),
    decreases a.len() - i, b.len() - j,
{
    if i < a.len() || j < b.len() {
        let kind = next_kind(a, b, c, i, j, k);
        let head = step_pieces(kind, a, b, sep, i, j);
        let rest = script(a, b, c, sep, next_orig(kind, i), next_edit(kind, j), next_guide(kind, k));
        lemma_script_step(a, b, c, sep, i, j, k);
        lemma_script_sides(a, b, c, sep, next_orig(kind, i), next_edit(kind, j), next_guide(kind, k));
        lemma_side_concat(head, rest, Kind::Add);
        lemma_side_concat(head, rest, Kind::Rem);
        match kind {
            Kind::Same => {
                lemma_shared_pieces_sides(a[i], sep, i + 1 < a.len(), j + 1 < b.len());
                lemma_joined_step(a, sep, i);
                lemma_joined_step(b, sep, j);
            },
            Kind::Rem => {
                lemma_side_single(head[0], Kind::Add);
                lemma_side_single(head[0], Kind::Rem);
                lemma_joined_step(a, sep, i);
            },
            Kind::Add => {
                lemma_side_single(head[0], Kind::Add);
                lemma_side_single(head[0], Kind::Rem);
                lemma_joined_step(b, sep, j);
            },
        }
    }
}

/// Counting the first step and then the others.
pub proof fn lemma_count_first(first: Kind, rest: Seq<Kind>, kind: Kind)
    ensures
        count(seq![first] + rest, kind) == count(rest, kind) + if first == kind {
            1nat
        } else {
            0nat
        },
{
    assert((seq![first] + rest).drop_first() =~= rest);
}

/// The alignment takes every token once: the removed and the shared tokens
/// are the tokens of the first sequence, the added and the shared ones those
/// of the second.
pub proof fn lemma_alignment_takes_every_token(
    a: Seq<Seq<char>>,
    b: Seq<Seq<char>>,
    c: Seq<Seq<char>>,
    i: int,
    j: int,
    k: int,
)
    requires
        0 <= i <= a.len(),
        0 <= j <= b.len(),
    ensures
        count(alignment(a, b, c, i, j, k), Kind::Rem) + count(
            alignment(a, b, c, i, j, k),
            Kind::Same,
        ) == a.len() - i,
        count(alignment(a, b, c, i, j, k), Kind::Add) + count(
            alignment(a, b, c, i, j, k),
            Kind::Same,
        ) == b.len() - j,
    decreases a.len() - i, b.len() - j,
{
    if i < a.len() || j < b.len() {
        let kind = next_kind(a, b, c, i, j, k);
        let rest = alignment(a, b, c, next_orig(kind, i), next_edit(kind, j), next_guide(kind, k));
        lemma_alignment_takes_every_token(
            a,
            b,
            c,
            next_orig(kind, i),
            next_edit(kind, j),
            next_guide(kind, k),
        );
        lemma_count_first(kind, rest, Kind::Rem);
        lemma_count_first(kind, rest, Kind::Add);
        lemma_count_first(kind, rest, Kind::Same);
    }
}

/// Under a guide that is a subsequence of both sequences, every token of
/// the guide is found: as many tokens are shared as the guide has.
pub proof fn lemma_alignment_follows_guide(
    a: Seq<Seq<char>>,
    b: Seq<Seq<char>>,
    c: Seq<Seq<char>>,
    i: int,
    j: int,
    k: int,
)
    requires
        0 <= i <= a.len(),
        0 <= j <= b.len(),
        0 <= k <= c.len(),
        is_subsequence(c.skip(k), a.skip(i)),
        is_subsequence(c.skip(k), b.skip(j)),
    ensures
        count(alignment(a, b, c, i, j, k), Kind::Same) == c.len() - k,
    decreases a.len() - i, b.len() - j,
{
    if i < a.len() || j < b.len() {
        let kind = next_kind(a, b, c, i, j, k);
        let rest = alignment(a, b, c, next_orig(kind, i), next_edit(kind, j), next_guide(kind, k));
        lemma_count_first(kind, rest, Kind::Same);
        let guide = c.skip(k);
        let left = a.skip(i);
        let right = b.skip(j);
        if k < c.len() {
            assert(left.drop_first() =~= a.skip(i + 1));
            assert(right.drop_first() =~= b.skip(j + 1));
            assert(guide.drop_first() =~= c.skip(k + 1));
            match kind {
                Kind::Rem => {
                    lemma_subsequence_skips_first(guide, left);
                },
                Kind::Add => {
                    lemma_subsequence_skips_first(guide, right);
                },
                Kind::Same => {
                    lemma_subsequence_takes_first(guide, left);
                    lemma_subsequence_takes_first(guide, right);
                },
            }
        }
        lemma_alignment_follows_guide(
            a,
            b,
            c,
            next_orig(kind, i),
            next_edit(kind, j),
            next_guide(kind, k),
        );
    }
}

/// Under a guide that is a subsequence of both sequences, the alignment
/// shares as many tokens as the guide has, removes as many as the first
/// sequence has more, and adds as many as the second has more.
pub proof fn lemma_alignment_counts(a: Seq<Seq<char>>, b: Seq<Seq<char>>, c: Seq<Seq<char>>)
    requires
        is_subsequence(c, a),
        is_subsequence(c, b),
    ensures
        count(alignment(a, b, c, 0, 0, 0), Kind::Same) == c.len(),
        count(alignment(a, b, c, 0, 0, 0), Kind::Rem) == a.len() - c.len(),
        count(alignment(a, b, c, 0, 0, 0), Kind::Add) == b.len() - c.len(),
{
    assert(a.skip(0) =~= a);
    assert(b.skip(0) =~= b);
    assert(c.skip(0) =~= c);
    lemma_alignment_follows_guide(a, b, c, 0, 0, 0);
    lemma_alignment_takes_every_token(a, b, c, 0, 0, 0);
}

/// The changeset covers both texts: its shared and removed entries, read in
/// order, are the tokens of the first text joined with the separator, and
/// its shared and added entries are those of the second. No entry is empty
/// and no two neighbours are of the same kind.
pub proof fn lemma_merged_covers_both(
    a: Seq<Seq<char>>,
    b: Seq<Seq<char>>,
    c: Seq<Seq<char>>,
    sep: Seq<char>,
)
    ensures
        original_text(merged(a, b, c, sep)) == joined(a, sep),
        edited_text(merged(a, b, c, sep)) == joined(b, sep),
        well_grouped(merged(a, b, c, sep)),
{
    let pieces = script(a, b, c, sep, 0, 0, 0);
    let nothing = Seq::<Span>::empty();
    lemma_script_sides(a, b, c, sep, 0, 0, 0);
    lemma_grouped_side(nothing, pieces, Kind::Add);
    lemma_grouped_side(nothing, pieces, Kind::Rem);
    lemma_grouped_well_grouped(nothing, pieces);
    assert(a.skip(0) =~= a);
    assert(b.skip(0) =~= b);
}

/// Whether the entry has no characters.
fn is_blank(entry: &Difference) -> (blank: bool)
    ensures
        blank == (entry@.text.len() == 0),
{
    match entry {
        Difference::Same(text) => text.as_str().is_empty(),
        Difference::Add(text) => text.as_str().is_empty(),
        Difference::Rem(text) => text.as_str().is_empty(),
    }
}

/// Takes one more piece into the changeset: nothing happens for a piece
/// without characters, a piece of the kind of the last entry is added to
/// that entry, and any other piece becomes a new entry.
fn absorb(changes: &mut Vec<Difference>, entry: Difference)
    ensures
        final(changes).deep_view() == absorbed(old(changes).deep_view(), entry@),
{
    if is_blank(&entry) {
        return;
    }
    match changes.pop() {
        None => {
            changes.push(entry);
        },
        Some(last) => {
            match (last, entry) {
                (Difference::Same(head), Difference::Same(tail)) => {
                    changes.push(Difference::Same(head.concat(tail.as_str())));
                },
                (Difference::Add(head), Difference::Add(tail)) => {
                    changes.push(Difference::Add(head.concat(tail.as_str())));
                },
                (Difference::Rem(head), Difference::Rem(tail)) => {
                    changes.push(Difference::Rem(head.concat(tail.as_str())));
                },
                (first, second) => {
                    changes.push(first);
                    changes.push(second);
                },
            }
        },
    }
}

/// The token, with the separator behind it where `more` is set.
fn with_separator(token: &String, split: &str, more: bool) -> (text: String)
    ensures
        text@ == piece(Kind::Same, token@, split@, more).text,
{
    let mut text = token.clone();
    if more {
        text.append(split);
    }
    text
}

/// Says of the next token whether it is shared, removed or added.
fn next_step(
    orig: &Vec<String>,
    edit: &Vec<String>,
    common: &Vec<String>,
    i: usize,
    j: usize,
    k: usize,
) -> (kind: Kind)
    requires
        i < orig.len() || j < edit.len(),
    ensures
        kind == next_kind(
            orig.deep_view(),
            edit.deep_view(),
            common.deep_view(),
            i as int,
            j as int,
            k as int,
        ),
{
    proof {
        lemma_deep_view(orig);
        lemma_deep_view(edit);
        lemma_deep_view(common);
    }
    if i < orig.len() && j < edit.len() && k < common.len() {
        if !(orig[i] == common[k]) {
            Kind::Rem
        } else if !(edit[j] == common[k]) {
            Kind::Add
        } else {
            Kind::Same
        }
    } else if i < orig.len() {
        Kind::Rem
    } else {
        Kind::Add
    }
}

/// Merges two token sequences into a changeset, with `common` as the guide
/// that says which tokens both have.
///
/// `common` has to be a common subsequence of the two sequences: then every
/// token of it finds its place in both, and the changeset shares as many
/// tokens as `common` has (`lemma_alignment_counts`).
///
/// The entries cover both texts: the shared and the removed ones are the
/// first text, the shared and the added ones the second.
pub fn merge_tokens(
    orig: &Vec<String>,
    edit: &Vec<String>,
    common: &Vec<String>,
    split: &str,
) -> (changes: Vec<Difference>)
    requires
        is_subsequence(common.deep_view(), orig.deep_view()),
        is_subsequence(common.deep_view(), edit.deep_view()),
    ensures
        changes.deep_view() == merged(
            orig.deep_view(),
            edit.deep_view(),
            common.deep_view(),
            split@,
        ),
        original_text(changes.deep_view()) == joined(orig.deep_view(), split@),
        edited_text(changes.deep_view()) == joined(edit.deep_view(), split@),
        well_grouped(changes.deep_view()),
{
    let n: usize = orig.len();
    let m: usize = edit.len();
    let l: usize = common.len();
    let ghost a = orig.deep_view();
    let ghost b = edit.deep_view();
    let ghost c = common.deep_view();
    let ghost sep = split@;
    let mut changes: Vec<Difference> = Vec::new();
    let mut i: usize = 0;
    let mut j: usize = 0;
    let mut k: usize = 0;
    assert(changes.deep_view() =~= Seq::<Span>::empty());
    while i < n || j < m
        invariant
            i <= n,
            j <= m,
            k <= l,
            n == orig.len(),
            m == edit.len(),
            l == common.len(),
            a == orig.deep_view(),
            b == edit.deep_view(),
            c == common.deep_view(),
            sep == split@,
            grouped_onto(changes.deep_view(), script(a, b, c, sep, i as int, j as int, k as int))
                == merged(a, b, c, sep),
        decreases (n - i) + (m - j),
    {
        proof {
            lemma_deep_view(orig);
            lemma_deep_view(edit);
            lemma_deep_view(common);
        }
        let ghost so_far = changes.deep_view();
        let kind = next_step(orig, edit, common, i, j, k);
        proof {
            lemma_script_step(a, b, c, sep, i as int, j as int, k as int);
        }
        let ghost rest = script(
            a,
            b,
            c,
            sep,
            next_orig(kind, i as int),
            next_edit(kind, j as int),
            next_guide(kind, k as int),
        );
        match kind {
            Kind::Rem => {
                proof {
                    lemma_grouped_first(so_far, piece(Kind::Rem, a[i as int], sep, i + 1 < n), rest);
                }
                absorb(&mut changes, Difference::Rem(with_separator(&orig[i], split, i + 1 < n)));
                i += 1;
            },
            Kind::Add => {
                proof {
                    lemma_grouped_first(so_far, piece(Kind::Add, b[j as int], sep, j + 1 < m), rest);
                }
                absorb(&mut changes, Difference::Add(with_separator(&edit[j], split, j + 1 < m)));
                j += 1;
            },
            Kind::Same => {
                let more_orig = i + 1 < n;
                let more_edit = j + 1 < m;
                let ghost shared = piece(Kind::Same, a[i as int], sep, more_orig && more_edit);
                proof {
                    lemma_grouped_first(so_far, shared, rest);
                }
                absorb(
                    &mut changes,
                    Difference::Same(with_separator(&orig[i], split, more_orig && more_edit)),
                );
                if more_orig != more_edit {
                    let ghost behind = Span {
                        kind: if more_orig {
                            Kind::Rem
                        } else {
                            Kind::Add
                        },
                        text: sep,
                    };
                    proof {
                        assert(seq![shared, behind] + rest =~= seq![shared] + (seq![behind]
                            + rest));
                        lemma_grouped_first(so_far, shared, seq![behind] + rest);
                        lemma_grouped_first(absorbed(so_far, shared), behind, rest);
                    }
                    if more_orig {
                        absorb(&mut changes, Difference::Rem(split.to_owned()));
                    } else {
                        absorb(&mut changes, Difference::Add(split.to_owned()));
                    }
                }
                i += 1;
                j += 1;
                k += 1;
            },
        }
    }
    proof {
        lemma_script_end(a, b, c, sep, i as int, j as int, k as int);
        lemma_merged_covers_both(a, b, c, sep);
    }
    changes
}

/// Merges the changes between two texts into a changeset, given the tokens
/// that both have as `common`.
///
/// `common` has to be a common subsequence of the token sequences of the
/// two texts under the separator `split`.
pub fn merge(orig: &str, edit: &str, common: &Vec<String>, split: &str) -> (changes: Vec<
    Difference,
>)
    requires
        is_subsequence(common.deep_view(), tokens_of(orig@, split@)),
        is_subsequence(common.deep_view(), tokens_of(edit@, split@)),
    ensures
        changes.deep_view() == merged(
            tokens_of(orig@, split@),
            tokens_of(edit@, split@),
            common.deep_view(),
            split@,
        ),
        original_text(changes.deep_view()) == orig@,
        edited_text(changes.deep_view()) == edit@,
        well_grouped(changes.deep_view()),
{
    let a = tokenize(orig, split);
    let b = tokenize(edit, split);
    proof {
        lemma_join_of_tokens(orig@, split@);
        lemma_join_of_tokens(edit@, split@);
    }
    merge_tokens(&a, &b, common, split)
}

} // verus!
