//! Subsequences: what remains of a sequence when items are left out.

use vstd::prelude::*;

verus! {

/// Whether `part` is what remains of `whole` when some of its items are left
/// out.
pub open spec fn is_subsequence<T>(part: Seq<T>, whole: Seq<T>) -> bool
    decreases whole.len(),
{
    if part.len() == 0 {
        true
    } else if whole.len() == 0 {
        false
    } else {
        ||| (part.last() == whole.last() && is_subsequence(part.drop_last(), whole.drop_last()))
        ||| is_subsequence(part, whole.drop_last())
    }
}

/// A subsequence of all but the last item is a subsequence of the whole.
pub proof fn lemma_subsequence_of_longer<T>(part: Seq<T>, whole: Seq<T>)
    requires
        whole.len() > 0,
        is_subsequence(part, whole.drop_last()),
    ensures
        is_subsequence(part, whole),
{
}

/// All but the last item of a subsequence is a subsequence too.
pub proof fn lemma_subsequence_drop_last<T>(part: Seq<T>, whole: Seq<T>)
    requires
        part.len() > 0,
        is_subsequence(part, whole),
    ensures
        whole.len() > 0,
        is_subsequence(part.drop_last(), whole.drop_last()),
        is_subsequence(part.drop_last(), whole),
    decreases whole.len(),
{
    let shorter = whole.drop_last();
    if !(part.last() == whole.last() && is_subsequence(part.drop_last(), shorter)) {
        lemma_subsequence_drop_last(part, shorter);
        lemma_subsequence_of_longer(part.drop_last(), shorter);
    }
    lemma_subsequence_of_longer(part.drop_last(), whole);
}

/// A subsequence whose first item is not the first of the whole is a
/// subsequence of the whole without its first item.
pub proof fn lemma_subsequence_skips_first<T>(part: Seq<T>, whole: Seq<T>)
    requires
        part.len() > 0,
        is_subsequence(part, whole),
        part.first() != whole.first(),
    ensures
        whole.len() > 0,
        is_subsequence(part, whole.drop_first()),
    decreases whole.len(),
{
    let shorter = whole.drop_last();
    let behind = whole.drop_first();
    if part.last() == whole.last() && is_subsequence(part.drop_last(), shorter) {
        if part.len() == 1 {
            assert(is_subsequence(part.drop_last(), behind.drop_last()));
        } else {
            lemma_subsequence_skips_first(part.drop_last(), shorter);
            assert(shorter.drop_first() =~= behind.drop_last());
        }
    } else {
        assert(is_subsequence(part, shorter));
        lemma_subsequence_skips_first(part, shorter);
        assert(shorter.drop_first() =~= behind.drop_last());
    }
}

/// Where a subsequence starts with the first item of the whole, what follows
/// in it is a subsequence of what follows in the whole.
pub proof fn lemma_subsequence_takes_first<T>(part: Seq<T>, whole: Seq<T>)
    requires
        part.len() > 0,
        is_subsequence(part, whole),
        part.first() == whole.first(),
    ensures
        whole.len() > 0,
        is_subsequence(part.drop_first(), whole.drop_first()),
    decreases whole.len(),
{
    let shorter = whole.drop_last();
    let behind = whole.drop_first();
    if part.len() > 1 {
        if part.last() == whole.last() && is_subsequence(part.drop_last(), shorter) {
            lemma_subsequence_takes_first(part.drop_last(), shorter);
            assert(shorter.drop_first() =~= behind.drop_last());
            assert(part.drop_last().drop_first() =~= part.drop_first().drop_last());
        } else {
            assert(is_subsequence(part, shorter));
            lemma_subsequence_takes_first(part, shorter);
            assert(shorter.drop_first() =~= behind.drop_last());
        }
    }
}

} // verus!
