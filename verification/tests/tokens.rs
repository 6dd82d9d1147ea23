use text_diff::tokens::{chars_of, tokenize};

fn owned_tokens(items: &[&str]) -> Vec<String> {
    items.iter().map(|item| item.to_string()).collect()
}

fn std_split(text: &str, split: &str) -> Vec<String> {
    text.split(split).map(|item| item.to_string()).collect()
}

#[test]
fn words_are_cut_at_spaces() {
    assert_eq!(tokenize("Diffs are awesome", " "), owned_tokens(&["Diffs", "are", "awesome"]));
}

#[test]
fn lines_are_cut_at_newlines() {
    assert_eq!(tokenize("one\ntwo\n", "\n"), owned_tokens(&["one", "two", ""]));
}

#[test]
fn empty_split_gives_one_token_per_character() {
    assert_eq!(tokenize("abc", ""), owned_tokens(&["a", "b", "c"]));
}

#[test]
fn empty_split_counts_characters_not_bytes() {
    assert_eq!(tokenize("h\u{e9}llo", ""), owned_tokens(&["h", "\u{e9}", "l", "l", "o"]));
}

#[test]
fn empty_text_has_no_character_tokens() {
    assert_eq!(tokenize("", ""), Vec::<String>::new());
}

#[test]
fn empty_text_is_one_empty_token_under_a_separator() {
    assert_eq!(tokenize("", " "), owned_tokens(&[""]));
}

#[test]
fn touching_separators_give_empty_tokens() {
    assert_eq!(tokenize("a  b", " "), owned_tokens(&["a", "", "b"]));
    assert_eq!(tokenize(" a", " "), owned_tokens(&["", "a"]));
    assert_eq!(tokenize("a ", " "), owned_tokens(&["a", ""]));
    assert_eq!(tokenize(" ", " "), owned_tokens(&["", ""]));
}

#[test]
fn separators_are_found_from_the_left_without_overlap() {
    assert_eq!(tokenize("aaa", "aa"), owned_tokens(&["", "a"]));
    assert_eq!(tokenize("abab", "ab"), owned_tokens(&["", "", ""]));
    assert_eq!(tokenize("a--b-c", "--"), owned_tokens(&["a", "b-c"]));
}

#[test]
fn separator_longer_than_text_leaves_the_text_whole() {
    assert_eq!(tokenize("ab", "abc"), owned_tokens(&["ab"]));
}

#[test]
fn tokens_agree_with_std_split() {
    let texts = [
        "",
        " ",
        "a",
        "a b",
        "  a  b  ",
        "aaa",
        "aaaa",
        "abcabcabc",
        "one\ntwo\n\nthree",
        "x\u{e9}y\u{e9}\u{e9}z",
        "a,b,,c",
        ",a,b,c,",
    ];
    let splits = [" ", "a", "aa", "abc", "\n", "\u{e9}", ",", "bc", "  "];
    for text in texts.iter() {
        for split in splits.iter() {
            assert_eq!(tokenize(text, split), std_split(text, split), "{:?} by {:?}", text, split);
        }
    }
}

#[test]
fn joining_the_tokens_gives_the_text_back() {
    let texts = ["", " ", "a b", "  a  b  ", "aaa", "one\ntwo\n", "h\u{e9}llo w\u{f6}rld"];
    let splits = ["", " ", "a", "aa", "\n", "\u{e9}"];
    for text in texts.iter() {
        for split in splits.iter() {
            assert_eq!(tokenize(text, split).join(split), *text, "{:?} by {:?}", text, split);
        }
    }
}

#[test]
fn there_are_never_more_tokens_than_characters_and_one() {
    let texts = ["", " ", "  ", "a b", "aaaa", "one\ntwo\n"];
    let splits = ["", " ", "a", "aa", "\n"];
    for text in texts.iter() {
        for split in splits.iter() {
            let count = tokenize(text, split).len();
            assert!(count <= text.chars().count() + 1);
            if split.is_empty() {
                assert_eq!(count, text.chars().count());
            }
        }
    }
}

#[test]
fn chars_of_lists_the_characters_in_order() {
    assert_eq!(chars_of("a\u{e9}b"), vec!['a', '\u{e9}', 'b']);
    assert_eq!(chars_of(""), Vec::<char>::new());
}
