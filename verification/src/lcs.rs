//! The longest common subsequence of two token sequences.
//!
//! The lengths of the longest common subsequences of all pairs of prefixes
//! are laid out in a table; one longest common subsequence is then read off
//! the table by walking back from its last cell.

use vstd::prelude::*;
use crate::subseq::{is_subsequence, lemma_subsequence_drop_last, lemma_subsequence_of_longer};
use crate::tokens::lemma_deep_view;

verus! {

/// The length of the longest common subsequence of the first `i` items of
/// `a` and the first `j` items of `b`, by the rule of the table: nothing
/// where one prefix is empty; one more than before both last items where
/// these are equal; otherwise the larger of the lengths without the one and
/// without the other.
pub open spec fn lcs_len<T>(a: Seq<T>, b: Seq<T>, i: int, j: int) -> int
    decreases i + j,
{
    if i <= 0 || j <= 0 {
        0
    } else if a[i - 1] == b[j - 1] {
        lcs_len(a, b, i - 1, j - 1) + 1
    } else if lcs_len(a, b, i, j - 1) > lcs_len(a, b, i - 1, j) {
        lcs_len(a, b, i, j - 1)
    } else {
        lcs_len(a, b, i - 1, j)
    }
}

/// The common subsequence that walking back from cell `(i, j)` collects.
/// Where the two items before the cell are equal, the item is taken and the
/// walk goes on before both. Otherwise it goes to the neighbour with the
/// longer subsequence, and where both are equally long it drops the item of
/// `a`.
pub open spec fn backtrack<T>(a: Seq<T>, b: Seq<T>, i: int, j: int) -> Seq<T>
    decreases i + j,
{
    if i <= 0 || j <= 0 {
        Seq::empty()
    } else if a[i - 1] == b[j - 1] {
        backtrack(a, b, i - 1, j - 1).push(a[i - 1])
    } else if lcs_len(a, b, i, j - 1) > lcs_len(a, b, i - 1, j) {
        backtrack(a, b, i, j - 1)
    } else {
        backtrack(a, b, i - 1, j)
    }
}

/// The longest common subsequence of `a` and `b` that the walk back from the
/// last cell of the table gives.
pub open spec fn common_of<T>(a: Seq<T>, b: Seq<T>) -> Seq<T> {
    backtrack(a, b, a.len() as int, b.len() as int)
}

/// The number of items of `a` and `b` that are not part of `common_of(a, b)`.
pub open spec fn distance<T>(a: Seq<T>, b: Seq<T>) -> int {
    a.len() + b.len() - 2 * common_of(a, b).len()
}

/// Whether `table` holds `lcs_len` for every pair of prefixes of `a` and `b`.
spec fn is_table<T>(table: Seq<Vec<usize>>, a: Seq<T>, b: Seq<T>) -> bool {
    &&& table.len() == a.len() + 1
    &&& forall|i: int| 0 <= i <= a.len() ==> (#[trigger] table[i]).len() == b.len() + 1
    &&& forall|i: int, j: int|
        0 <= i <= a.len() && 0 <= j <= b.len() ==> #[trigger] table[i][j] == lcs_len(a, b, i, j)
}

/// A common subsequence is no longer than the shorter of the two prefixes.
pub proof fn lemma_lcs_len_bounds<T>(a: Seq<T>, b: Seq<T>, i: int, j: int)
    requires
        0 <= i,
        0 <= j,
    ensures
        0 <= lcs_len(a, b, i, j) <= i,
        lcs_len(a, b, i, j) <= j,
    decreases i + j,
{
    if i > 0 && j > 0 {
        lemma_lcs_len_bounds(a, b, i - 1, j - 1);
        lemma_lcs_len_bounds(a, b, i, j - 1);
        lemma_lcs_len_bounds(a, b, i - 1, j);
    }
}

/// The table does not change when the two sequences change places.
pub proof fn lemma_lcs_len_symmetric<T>(a: Seq<T>, b: Seq<T>, i: int, j: int)
    ensures
        lcs_len(a, b, i, j) == lcs_len(b, a, j, i),
    decreases i + j,
{
    if i > 0 && j > 0 {
        lemma_lcs_len_symmetric(a, b, i - 1, j - 1);
        lemma_lcs_len_symmetric(a, b, i, j - 1);
        lemma_lcs_len_symmetric(a, b, i - 1, j);
    }
}

/// The walk back collects as many items as the table says.
pub proof fn lemma_backtrack_len<T>(a: Seq<T>, b: Seq<T>, i: int, j: int)
    ensures
        backtrack(a, b, i, j).len() == lcs_len(a, b, i, j),
    decreases i + j,
{
    if i > 0 && j > 0 {
        lemma_backtrack_len(a, b, i - 1, j - 1);
        lemma_backtrack_len(a, b, i, j - 1);
        lemma_backtrack_len(a, b, i - 1, j);
    }
}

/// What the walk back collects is a subsequence of both prefixes.
pub proof fn lemma_backtrack_is_common<T>(a: Seq<T>, b: Seq<T>, i: int, j: int)
    requires
        0 <= i <= a.len(),
        0 <= j <= b.len(),
    ensures
        is_subsequence(backtrack(a, b, i, j), a.take(i)),
        is_subsequence(backtrack(a, b, i, j), b.take(j)),
    decreases i + j,
{
    if i > 0 && j > 0 {
        assert(a.take(i).drop_last() =~= a.take(i - 1));
        assert(b.take(j).drop_last() =~= b.take(j - 1));
        if a[i - 1] == b[j - 1] {
            lemma_backtrack_is_common(a, b, i - 1, j - 1);
            let found = backtrack(a, b, i, j);
            assert(found.drop_last() =~= backtrack(a, b, i - 1, j - 1));
        } else if lcs_len(a, b, i, j - 1) > lcs_len(a, b, i - 1, j) {
            lemma_backtrack_is_common(a, b, i, j - 1);
            lemma_subsequence_of_longer(backtrack(a, b, i, j), b.take(j));
        } else {
            lemma_backtrack_is_common(a, b, i - 1, j);
            lemma_subsequence_of_longer(backtrack(a, b, i, j), a.take(i));
        }
    }
}

/// No common subsequence of the two prefixes is longer than the table says.
pub proof fn lemma_lcs_len_is_longest<T>(a: Seq<T>, b: Seq<T>, i: int, j: int, other: Seq<T>)
    requires
        0 <= i <= a.len(),
        0 <= j <= b.len(),
        is_subsequence(other, a.take(i)),
        is_subsequence(other, b.take(j)),
    ensures
        other.len() <= lcs_len(a, b, i, j),
    decreases i + j,
{
    lemma_lcs_len_bounds(a, b, i, j);
    if other.len() > 0 {
        assert(a.take(i).drop_last() =~= a.take(i - 1));
        assert(b.take(j).drop_last() =~= b.take(j - 1));
        if a[i - 1] == b[j - 1] {
            lemma_subsequence_drop_last(other, a.take(i));
            lemma_subsequence_drop_last(other, b.take(j));
            lemma_lcs_len_is_longest(a, b, i - 1, j - 1, other.drop_last());
        } else if other.last() != a[i - 1] {
            lemma_lcs_len_is_longest(a, b, i - 1, j, other);
        } else {
            lemma_lcs_len_is_longest(a, b, i, j - 1, other);
        }
    }
}

/// `common_of(a, b)` is a common subsequence of `a` and `b`, and no common
/// subsequence of theirs is longer.
pub proof fn lemma_common_is_longest<T>(a: Seq<T>, b: Seq<T>)
    ensures
        is_subsequence(common_of(a, b), a),
        is_subsequence(common_of(a, b), b),
        common_of(a, b).len() <= a.len(),
        common_of(a, b).len() <= b.len(),
        forall|other: Seq<T>| #[trigger]
            is_subsequence(other, a) && is_subsequence(other, b) ==> other.len() <= common_of(
                a,
                b,
            ).len(),
{
    let n = a.len() as int;
    let m = b.len() as int;
    assert(a.take(n) =~= a);
    assert(b.take(m) =~= b);
    lemma_backtrack_is_common(a, b, n, m);
    lemma_backtrack_len(a, b, n, m);
    lemma_lcs_len_bounds(a, b, n, m);
    assert forall|other: Seq<T>| #[trigger]
        is_subsequence(other, a) && is_subsequence(other, b) implies other.len() <= common_of(
        a,
        b,
    ).len() by {
        lemma_lcs_len_is_longest(a, b, n, m, other);
    }
}

/// The walk back through the table of a sequence with itself collects the
/// sequence.
pub proof fn lemma_backtrack_of_equal<T>(a: Seq<T>, i: int)
    requires
        0 <= i <= a.len(),
    ensures
        backtrack(a, a, i, i) == a.take(i),
    decreases i,
{
    if i > 0 {
        lemma_backtrack_of_equal(a, i - 1);
    }
}

/// The table of `lcs_len` for the two token sequences.
fn lengths_table(orig: &Vec<String>, edit: &Vec<String>) -> (table: Vec<Vec<usize>>)
    ensures
        is_table(table@, orig.deep_view(), edit.deep_view()),
{
    let n: usize = orig.len();
    let m: usize = edit.len();
    let ghost a = orig.deep_view();
    let ghost b = edit.deep_view();
    let mut top: Vec<usize> = Vec::new();
    top.push(0);
    let mut j: usize = 0;
    while j < m
        invariant
            j <= m,
            top.len() == j + 1,
            forall|c: int| 0 <= c <= j ==> #[trigger] top[c] == 0,
        decreases m - j,
    {
        top.push(0);
        j += 1;
    }
    let mut table: Vec<Vec<usize>> = Vec::new();
    table.push(top);
    let mut i: usize = 0;
    while i < n
        invariant
            i <= n,
            n == orig.len(),
            m == edit.len(),
            a == orig.deep_view(),
            b == edit.deep_view(),
            table.len() == i + 1,
            forall|r: int| 0 <= r <= i ==> (#[trigger] table[r]).len() == m + 1,
            forall|r: int, c: int|
                0 <= r <= i && 0 <= c <= m ==> #[trigger] table[r][c] == lcs_len(a, b, r, c),
        decreases n - i,
    {
        let mut row: Vec<usize> = Vec::new();
        row.push(0);
        let mut j: usize = 0;
        while j < m
            invariant
                i < n,
                j <= m,
                n == orig.len(),
                m == edit.len(),
                a == orig.deep_view(),
                b == edit.deep_view(),
                table.len() == i + 1,
                row.len() == j + 1,
                forall|r: int| 0 <= r <= i ==> (#[trigger] table[r]).len() == m + 1,
                forall|r: int, c: int|
                    0 <= r <= i && 0 <= c <= m ==> #[trigger] table[r][c] == lcs_len(a, b, r, c),
                forall|c: int| 0 <= c <= j ==> #[trigger] row[c] == lcs_len(a, b, i + 1, c),
            decreases m - j,
        {
            proof {
                lemma_deep_view(orig);
                lemma_deep_view(edit);
                lemma_lcs_len_bounds(a, b, i as int, j as int);
            }
            let cell: usize = if orig[i] == edit[j] {
                table[i][j] + 1
            } else {
                let left: usize = row[j];
                let up: usize = table[i][j + 1];
                if left > up {
                    left
                } else {
                    up
                }
            };
            row.push(cell);
            j += 1;
        }
        table.push(row);
        i += 1;
    }
    table
}

/// Finds the longest common subsequence of the two token sequences.
///
/// Among several longest common subsequences the result is the one that
/// `backtrack` describes.
pub fn common_tokens(orig: &Vec<String>, edit: &Vec<String>) -> (common: Vec<String>)
    ensures
        common.deep_view() == common_of(orig.deep_view(), edit.deep_view()),
        is_subsequence(common.deep_view(), orig.deep_view()),
        is_subsequence(common.deep_view(), edit.deep_view()),
        common.len() <= orig.len(),
        common.len() <= edit.len(),
        forall|other: Seq<Seq<char>>| #[trigger]
            is_subsequence(other, orig.deep_view()) && is_subsequence(other, edit.deep_view())
                ==> other.len() <= common.len(),
{
    let n: usize = orig.len();
    let m: usize = edit.len();
    let ghost a = orig.deep_view();
    let ghost b = edit.deep_view();
    let ghost whole = common_of(a, b);
    let table = lengths_table(orig, edit);
    proof {
        lemma_deep_view(orig);
        lemma_deep_view(edit);
        lemma_common_is_longest(a, b);
    }
    let mut found: Vec<String> = Vec::new();
    let mut i: usize = n;
    let mut j: usize = m;
    while i > 0 && j > 0
        invariant
            i <= n,
            j <= m,
            n == orig.len(),
            m == edit.len(),
            a == orig.deep_view(),
            b == edit.deep_view(),
            is_table(table@, a, b),
            found.len() <= whole.len(),
            backtrack(a, b, i as int, j as int) == whole.take(whole.len() - found.len()),
            forall|k: int|
                0 <= k < found.len() ==> (#[trigger] found[k])@ == whole[whole.len() - 1 - k],
        decreases i + j,
    {
        proof {
            lemma_deep_view(orig);
            lemma_deep_view(edit);
        }
        if orig[i - 1] == edit[j - 1] {
            assert(backtrack(a, b, i as int, j as int).last() == a[i - 1]);
            found.push(orig[i - 1].clone());
            i -= 1;
            j -= 1;
        } else if table[i][j - 1] > table[i - 1][j] {
            j -= 1;
        } else {
            i -= 1;
        }
    }
    let mut common: Vec<String> = Vec::new();
    while found.len() > 0
        invariant
            common.len() + found.len() == whole.len(),
            forall|k: int|
                0 <= k < found.len() ==> (#[trigger] found[k])@ == whole[whole.len() - 1 - k],
            forall|k: int| 0 <= k < common.len() ==> (#[trigger] common[k])@ == whole[k],
        decreases found.len(),
    {
        let token = found.pop().unwrap();
        common.push(token);
    }
    proof {
        lemma_deep_view(&common);
        assert(common.deep_view() =~= whole);
    }
    common
}

/// Finds the longest common subsequence of the two token sequences and
/// their distance: the number of tokens of either that are not part of it.
///
/// The distance has to fit into an `i32`.
pub fn lcs(orig: &Vec<String>, edit: &Vec<String>) -> (res: (i32, Vec<String>))
    requires
        distance(orig.deep_view(), edit.deep_view()) <= i32::MAX,
    ensures
        res.0 == distance(orig.deep_view(), edit.deep_view()),
        res.1.deep_view() == common_of(orig.deep_view(), edit.deep_view()),
        res.0 == orig.len() + edit.len() - 2 * res.1.len(),
        is_subsequence(res.1.deep_view(), orig.deep_view()),
        is_subsequence(res.1.deep_view(), edit.deep_view()),
        forall|other: Seq<Seq<char>>| #[trigger]
            is_subsequence(other, orig.deep_view()) && is_subsequence(other, edit.deep_view())
                ==> other.len() <= res.1.len(),
{
    let common = common_tokens(orig, edit);
    proof {
        lemma_deep_view(orig);
        lemma_deep_view(edit);
        lemma_deep_view(&common);
    }
    let removed: usize = orig.len() - common.len();
    let added: usize = edit.len() - common.len();
    ((removed + added) as i32, common)
}

} // verus!
