//! Cutting a text into tokens, and putting the tokens together again.
//!
//! A text is cut at every occurrence of a separator: with `" "` into words,
//! with `"\n"` into lines. Occurrences are found from the left and do not
//! overlap; what stands between two of them is a token, empty where they
//! touch. With the empty separator every character is a token.

use vstd::prelude::*;

verus! {

/// `String::push` adds one character at the end of the string and leaves
/// what was there untouched. This is what std documents of it; it is not
/// proved here.
pub assume_specification[ String::push ](s: &mut String, c: char)
    ensures
        final(s)@ == old(s)@.push(c),
;

/// Whether `sep` stands in `text` at position `at`.
pub open spec fn occurs_at(text: Seq<char>, sep: Seq<char>, at: int) -> bool {
    &&& 0 <= at
    &&& at + sep.len() <= text.len()
    &&& text.subrange(at, at + sep.len()) == sep
}

/// The position of the leftmost occurrence of `sep` in `text`, or
/// `text.len()` where a non-empty `sep` does not occur.
pub open spec fn first_occurrence(text: Seq<char>, sep: Seq<char>) -> int
    decreases text.len(),
{
    if text.len() == 0 || occurs_at(text, sep, 0) {
        0
    } else {
        1 + first_occurrence(text.drop_first(), sep)
    }
}

/// The tokens of `text` for a separator that is not empty: the text before
/// the leftmost occurrence, then the tokens of what follows that occurrence;
/// the whole text where the separator does not occur.
pub open spec fn split_on(text: Seq<char>, sep: Seq<char>) -> Seq<Seq<char>>
    recommends
        sep.len() > 0,
    decreases text.len(),
{
    let at = first_occurrence(text, sep);
    if sep.len() > 0 && occurs_at(text, sep, at) {
        seq![text.take(at)] + split_on(text.skip(at + sep.len()), sep)
    } else {
        seq![text]
    }
}

/// One token for each character of `text`.
pub open spec fn each_char(text: Seq<char>) -> Seq<Seq<char>> {
    Seq::new(text.len(), |i: int| seq![text[i]])
}

/// The tokens of `text` under the separator `sep`.
pub open spec fn tokens_of(text: Seq<char>, sep: Seq<char>) -> Seq<Seq<char>> {
    if sep.len() == 0 {
        each_char(text)
    } else {
        split_on(text, sep)
    }
}

/// The tokens written one after another with `sep` between each two.
pub open spec fn joined(tokens: Seq<Seq<char>>, sep: Seq<char>) -> Seq<char>
    decreases tokens.len(),
{
    if tokens.len() == 0 {
        Seq::empty()
    } else if tokens.len() == 1 {
        tokens[0]
    } else {
        tokens[0] + sep + joined(tokens.drop_first(), sep)
    }
}

/// An occurrence in the text without its first character is an occurrence
/// one place further in the whole text.
proof fn lemma_occurs_shift(text: Seq<char>, sep: Seq<char>, at: int)
    requires
        text.len() > 0,
        0 <= at,
    ensures
        occurs_at(text.drop_first(), sep, at) == occurs_at(text, sep, at + 1),
{
    if at + sep.len() <= text.len() - 1 {
        assert(text.drop_first().subrange(at, at + sep.len()) =~= text.subrange(
            at + 1,
            at + 1 + sep.len(),
        ));
    }
}

/// An occurrence in the text behind position `from` is an occurrence
/// `from` places further in the whole text.
proof fn lemma_occurs_behind(text: Seq<char>, sep: Seq<char>, from: int, at: int)
    requires
        0 <= from <= text.len(),
        0 <= at,
    ensures
        occurs_at(text.skip(from), sep, at) == occurs_at(text, sep, from + at),
{
    if at + sep.len() <= text.len() - from {
        assert(text.skip(from).subrange(at, at + sep.len()) =~= text.subrange(
            from + at,
            from + at + sep.len(),
        ));
    }
}

/// The views of the strings of a vector, one by one.
pub proof fn lemma_deep_view(v: &Vec<String>)
    ensures
        v.deep_view().len() == v.len(),
        forall|k: int| 0 <= k < v.len() ==> v.deep_view()[k] == v[k]@,
{
}

/// `first_occurrence` lies within the text, the separator occurs nowhere
/// before it, and it occurs there unless the end of the text is reached.
pub proof fn lemma_first_occurrence_is_leftmost(text: Seq<char>, sep: Seq<char>)
    ensures
        0 <= first_occurrence(text, sep) <= text.len(),
        forall|q: int| 0 <= q < first_occurrence(text, sep) ==> !occurs_at(text, sep, q),
        first_occurrence(text, sep) < text.len() ==> occurs_at(
            text,
            sep,
            first_occurrence(text, sep),
        ),
    decreases text.len(),
{
    if text.len() == 0 || occurs_at(text, sep, 0) {
    } else {
        let rest = text.drop_first();
        lemma_first_occurrence_is_leftmost(rest, sep);
        lemma_occurs_shift(text, sep, first_occurrence(rest, sep));
        assert forall|q: int| 0 <= q < first_occurrence(text, sep) implies !occurs_at(
            text,
            sep,
            q,
        ) by {
            if q > 0 {
                lemma_occurs_shift(text, sep, q - 1);
            }
        }
    }
}

/// Where the separator occurs at `at` and nowhere before, `first_occurrence`
/// is `at`.
pub proof fn lemma_first_occurrence_found(text: Seq<char>, sep: Seq<char>, at: int)
    requires
        occurs_at(text, sep, at),
        forall|q: int| 0 <= q < at ==> !occurs_at(text, sep, q),
    ensures
        first_occurrence(text, sep) == at,
    decreases at,
{
    if at > 0 {
        let rest = text.drop_first();
        lemma_occurs_shift(text, sep, at - 1);
        assert forall|q: int| 0 <= q < at - 1 implies !occurs_at(rest, sep, q) by {
            lemma_occurs_shift(text, sep, q);
        }
        lemma_first_occurrence_found(rest, sep, at - 1);
    }
}

/// Where a non-empty separator occurs nowhere, the text is its own single
/// token.
pub proof fn lemma_split_without_separator(text: Seq<char>, sep: Seq<char>)
    requires
        sep.len() > 0,
        forall|q: int| 0 <= q < text.len() ==> !occurs_at(text, sep, q),
    ensures
        split_on(text, sep) == seq![text],
{
    lemma_first_occurrence_is_leftmost(text, sep);
}

/// Where a non-empty separator occurs first at `at`, the first token ends
/// there and the others are those of the text behind the separator.
pub proof fn lemma_split_at_separator(text: Seq<char>, sep: Seq<char>, at: int)
    requires
        sep.len() > 0,
        occurs_at(text, sep, at),
        forall|q: int| 0 <= q < at ==> !occurs_at(text, sep, q),
    ensures
        split_on(text, sep) == seq![text.take(at)] + split_on(text.skip(at + sep.len()), sep),
{
    lemma_first_occurrence_found(text, sep, at);
}

/// A text has at least one token under a separator that is not empty.
pub proof fn lemma_split_is_not_empty(text: Seq<char>, sep: Seq<char>)
    ensures
        split_on(text, sep).len() >= 1,
{
}

/// No token holds the separator: the text is cut at every occurrence.
pub proof fn lemma_tokens_hold_no_separator(text: Seq<char>, sep: Seq<char>, t: int, at: int)
    requires
        sep.len() > 0,
        0 <= t < split_on(text, sep).len(),
    ensures
        !occurs_at(split_on(text, sep)[t], sep, at),
    decreases text.len(),
{
    let first = first_occurrence(text, sep);
    lemma_first_occurrence_is_leftmost(text, sep);
    if occurs_at(text, sep, first) {
        if t == 0 {
            let token = text.take(first);
            if occurs_at(token, sep, at) {
                assert(token.subrange(at, at + sep.len()) =~= text.subrange(at, at + sep.len()));
                assert(occurs_at(text, sep, at));
            }
        } else {
            let behind = text.skip(first + sep.len());
            lemma_tokens_hold_no_separator(behind, sep, t - 1, at);
        }
    }
}

/// There are never more tokens than characters and one.
pub proof fn lemma_token_count(text: Seq<char>, sep: Seq<char>)
    ensures
        tokens_of(text, sep).len() <= text.len() + 1,
        sep.len() == 0 ==> tokens_of(text, sep).len() == text.len(),
    decreases text.len(),
{
    let at = first_occurrence(text, sep);
    if sep.len() > 0 && occurs_at(text, sep, at) {
        lemma_token_count(text.skip(at + sep.len()), sep);
    }
}

/// Joining the tokens of a text with the separator gives the text back.
pub proof fn lemma_join_of_tokens(text: Seq<char>, sep: Seq<char>)
    ensures
        joined(tokens_of(text, sep), sep) == text,
    decreases text.len(),
{
    if sep.len() == 0 {
        assert(sep =~= Seq::<char>::empty());
        lemma_join_of_chars(text);
    } else {
        let at = first_occurrence(text, sep);
        if occurs_at(text, sep, at) {
            let behind = text.skip(at + sep.len());
            let rest = split_on(behind, sep);
            let all = seq![text.take(at)] + rest;
            lemma_join_of_tokens(behind, sep);
            lemma_split_is_not_empty(behind, sep);
            assert(all.drop_first() =~= rest);
        }
    }
}

proof fn lemma_join_of_chars(text: Seq<char>)
    ensures
        joined(each_char(text), Seq::empty()) == text,
    decreases text.len(),
{
    if text.len() > 1 {
        lemma_join_of_chars(text.drop_first());
        assert(each_char(text).drop_first() =~= each_char(text.drop_first()));
    }
}

/// The characters of `text`, in order.
pub fn chars_of(text: &str) -> (out: Vec<char>)
    ensures
        out@ == text@,
{
    let mut out: Vec<char> = Vec::new();
    let chars = text.chars();
    for c in iter: chars
        invariant
            out@ == iter.seq().take(iter.index()),
            iter.seq() == text@,
    {
        out.push(c);
    }
    out
}

/// Whether `sep` stands in `text` at position `at`.
fn occurs(text: &Vec<char>, sep: &Vec<char>, at: usize) -> (found: bool)
    requires
        at <= text.len(),
    ensures
        found == occurs_at(text@, sep@, at as int),
{
    let n: usize = text.len();
    let m: usize = sep.len();
    if m > n - at {
        return false;
    }
    let mut k: usize = 0;
    while k < m
        invariant
            k <= m,
            at + m <= n,
            n == text.len(),
            m == sep.len(),
            forall|q: int| 0 <= q < k ==> text@[at + q] == sep@[q],
        decreases m - k,
    {
        if text[at + k] != sep[k] {
            return false;
        }
        k += 1;
    }
    assert(text@.subrange(at as int, at + m) =~= sep@);
    true
}

/// Cuts `text` into its tokens under the separator `split`.
pub fn tokenize(text: &str, split: &str) -> (tokens: Vec<String>)
    ensures
        tokens.deep_view() == tokens_of(text@, split@),
{
    let chars = chars_of(text);
    let sep = chars_of(split);
    let n: usize = chars.len();
    let m: usize = sep.len();
    let mut tokens: Vec<String> = Vec::new();
    let mut i: usize = 0;
    if m == 0 {
        while i < n
            invariant
                i <= n,
                n == chars.len(),
                chars@ == text@,
                tokens.deep_view() =~= each_char(text@).take(i as int),
            decreases n - i,
        {
            let mut token = String::new();
            token.push(chars[i]);
            let ghost before = tokens.deep_view();
            tokens.push(token);
            assert(tokens.deep_view() =~= before.push(token@));
            i += 1;
        }
        return tokens;
    }
    let ghost mut start: int = 0;
    let mut token = String::new();
    assert(text@.skip(0) =~= text@);
    while i < n
        invariant
            0 <= start <= i <= n,
            n == chars.len(),
            m == sep.len(),
            m > 0,
            chars@ == text@,
            sep@ == split@,
            token@ == text@.subrange(start, i as int),
            forall|q: int| start <= q < i ==> !occurs_at(text@, split@, q),
            tokens_of(text@, split@) == tokens.deep_view() + split_on(text@.skip(start), split@),
        decreases n - i,
    {
        if occurs(&chars, &sep, i) {
            proof {
                let tail = text@.skip(start);
                lemma_occurs_behind(text@, split@, start, i - start);
                assert forall|q: int| 0 <= q < i - start implies !occurs_at(tail, split@, q) by {
                    lemma_occurs_behind(text@, split@, start, q);
                }
                lemma_split_at_separator(tail, split@, i - start);
                assert(tail.take(i - start) =~= text@.subrange(start, i as int));
                assert(tail.skip(i - start + m) =~= text@.skip(i + m));
            }
            tokens.push(token);
            token = String::new();
            i += m;
            proof {
                start = i as int;
            }
        } else {
            token.push(chars[i]);
            i += 1;
        }
    }
    proof {
        let tail = text@.skip(start);
        assert forall|q: int| 0 <= q < tail.len() implies !occurs_at(tail, split@, q) by {
            lemma_occurs_behind(text@, split@, start, q);
        }
        lemma_split_without_separator(tail, split@);
    }
    tokens.push(token);
    tokens
}

} // verus!
