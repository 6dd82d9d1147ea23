use text_diff::lcs::{common_tokens, lcs};

fn token_list(items: &[&str]) -> Vec<String> {
    items.iter().map(|item| item.to_string()).collect()
}

fn letters(text: &str) -> Vec<String> {
    text.chars().map(|c| c.to_string()).collect()
}

fn is_part_of(part: &[String], whole: &[String]) -> bool {
    let mut next = 0;
    for item in whole {
        if next < part.len() && part[next] == *item {
            next += 1;
        }
    }
    next == part.len()
}

#[test]
fn lcs_of_two_empty_sequences() {
    assert_eq!(lcs(&token_list(&[]), &token_list(&[])), (0, token_list(&[])));
}

#[test]
fn lcs_with_one_empty_sequence() {
    assert_eq!(lcs(&letters("abc"), &token_list(&[])), (3, token_list(&[])));
    assert_eq!(lcs(&token_list(&[]), &letters("ab")), (2, token_list(&[])));
}

#[test]
fn lcs_of_equal_sequences_is_the_sequence() {
    let words = token_list(&["to", "be", "or", "not", "to", "be"]);
    assert_eq!(lcs(&words, &words), (0, token_list(&["to", "be", "or", "not", "to", "be"])));
}

#[test]
fn lcs_of_sequences_without_common_token() {
    assert_eq!(lcs(&letters("abc"), &letters("xy")), (5, token_list(&[])));
}

#[test]
fn lcs_after_a_substitution() {
    assert_eq!(lcs(&letters("ab"), &letters("ac")), (2, token_list(&["a"])));
}

#[test]
fn lcs_of_texts_with_several_answers() {
    assert_eq!(lcs(&letters("XMJYAUZ"), &letters("MZJAWXU")), (6, letters("MJAU")));
    assert_eq!(lcs(&letters("AGGTAB"), &letters("GXTXAYB")), (5, letters("GTAB")));
    assert_eq!(lcs(&letters("kitten"), &letters("sitting")), (5, letters("ittn")));
}

#[test]
fn lcs_drops_the_token_of_the_first_sequence_on_a_tie() {
    assert_eq!(lcs(&letters("ab"), &letters("ba")), (2, token_list(&["a"])));
    assert_eq!(lcs(&letters("ba"), &letters("ab")), (2, token_list(&["b"])));
}

#[test]
fn lcs_compares_whole_tokens() {
    let orig = token_list(&["the", "quick", "brown", "fox"]);
    let edit = token_list(&["the", "slow", "brown", "dog", "jumps"]);
    assert_eq!(lcs(&orig, &edit), (5, token_list(&["the", "brown"])));
}

#[test]
fn lcs_takes_empty_tokens_as_tokens() {
    let orig = token_list(&["a", ""]);
    let edit = token_list(&["b", ""]);
    assert_eq!(lcs(&orig, &edit), (2, token_list(&[""])));
}

#[test]
fn lcs_result_is_part_of_both_and_gives_the_distance() {
    let samples = ["", "a", "ab", "ba", "abcabba", "cbabac", "XMJYAUZ", "MZJAWXU", "aaaa", "aabaa"];
    for first in samples.iter() {
        for second in samples.iter() {
            let orig = letters(first);
            let edit = letters(second);
            let (distance, common) = lcs(&orig, &edit);
            assert!(is_part_of(&common, &orig));
            assert!(is_part_of(&common, &edit));
            assert_eq!(distance as usize, orig.len() + edit.len() - 2 * common.len());
            let (back, other) = lcs(&edit, &orig);
            assert_eq!(back, distance);
            assert_eq!(other.len(), common.len());
        }
    }
}

#[test]
fn common_tokens_are_the_subsequence_of_lcs() {
    assert_eq!(common_tokens(&letters("XMJYAUZ"), &letters("MZJAWXU")), letters("MJAU"));
    assert_eq!(common_tokens(&letters("abc"), &token_list(&[])), token_list(&[]));
    let samples = ["", "a", "ab", "ba", "abcabba", "cbabac"];
    for first in samples.iter() {
        for second in samples.iter() {
            let orig = letters(first);
            let edit = letters(second);
            assert_eq!(common_tokens(&orig, &edit), lcs(&orig, &edit).1);
        }
    }
}

#[test]
fn lcs_is_as_long_as_any_common_part() {
    let orig = letters("abcabba");
    let edit = letters("cbabac");
    let (distance, common) = lcs(&orig, &edit);
    assert_eq!(common.len(), 4);
    assert_eq!(distance, 5);
    for candidate in ["baba", "cbba", "caba", "bab", "c"].iter() {
        let part = letters(candidate);
        assert!(is_part_of(&part, &orig) && is_part_of(&part, &edit));
        assert!(part.len() <= common.len());
    }
}
