use text_diff::Difference::{Add, Rem, Same};
use text_diff::{changeset, checked_diff, diff, Difference};

fn first_text(changeset: &[Difference]) -> String {
    let mut text = String::new();
    for entry in changeset {
        match entry {
            Same(part) | Rem(part) => text.push_str(part),
            Add(_) => {}
        }
    }
    text
}

fn second_text(changeset: &[Difference]) -> String {
    let mut text = String::new();
    for entry in changeset {
        match entry {
            Same(part) | Add(part) => text.push_str(part),
            Rem(_) => {}
        }
    }
    text
}

fn kind_of(entry: &Difference) -> u8 {
    match entry {
        Same(_) => 0,
        Add(_) => 1,
        Rem(_) => 2,
    }
}

fn text_of(entry: &Difference) -> &str {
    match entry {
        Same(part) | Add(part) | Rem(part) => part,
    }
}

const SAMPLES: [&str; 14] = [
    "",
    " ",
    "a",
    "a b",
    "b a",
    "a  b",
    "a b ",
    " a b",
    "Diffs are awesome",
    "Diffs are cool",
    "one\ntwo\nthree",
    "one\nthree\nfour\n",
    "h\u{e9}llo w\u{f6}rld",
    "hello w\u{f6}rld!",
];

const SPLITS: [&str; 5] = ["", " ", "\n", "o", "l "];

#[test]
fn single_character_kept() {
    assert_eq!(diff("a", "a", ""), (0, vec![Same("a".to_string())]));
}

#[test]
fn last_character_replaced() {
    assert_eq!(
        diff("ab", "ac", ""),
        (2, vec![Same("a".to_string()), Rem("b".to_string()), Add("c".to_string())])
    );
}

#[test]
fn last_word_replaced() {
    assert_eq!(
        diff("Diffs are awesome", "Diffs are cool", " "),
        (
            2,
            vec![
                Same("Diffs are ".to_string()),
                Rem("awesome".to_string()),
                Add("cool".to_string())
            ]
        )
    );
}

#[test]
fn two_empty_texts() {
    assert_eq!(diff("", "", " "), (0, vec![]));
    assert_eq!(diff("", "", ""), (0, vec![]));
}

#[test]
fn everything_removed() {
    assert_eq!(diff("abc", "", ""), (3, vec![Rem("abc".to_string())]));
}

#[test]
fn everything_added() {
    assert_eq!(diff("", "abc", ""), (3, vec![Add("abc".to_string())]));
}

#[test]
fn nothing_in_common() {
    assert_eq!(diff("x", "y", ""), (2, vec![Rem("x".to_string()), Add("y".to_string())]));
}

#[test]
fn word_added_at_the_end_takes_the_separator_before_it() {
    assert_eq!(diff("a", "a b", " "), (1, vec![Same("a".to_string()), Add(" b".to_string())]));
}

#[test]
fn word_removed_at_the_end_takes_the_separator_before_it() {
    assert_eq!(diff("a b", "a", " "), (1, vec![Same("a".to_string()), Rem(" b".to_string())]));
}

#[test]
fn word_removed_in_the_middle_takes_the_separator_behind_it() {
    assert_eq!(
        diff("a b c", "a c", " "),
        (1, vec![Same("a ".to_string()), Rem("b ".to_string()), Same("c".to_string())])
    );
}

#[test]
fn word_replaced_in_the_middle() {
    assert_eq!(
        diff("a x b", "a y b", " "),
        (
            2,
            vec![
                Same("a ".to_string()),
                Rem("x ".to_string()),
                Add("y ".to_string()),
                Same("b".to_string())
            ]
        )
    );
}

#[test]
fn doubled_space_is_an_empty_word() {
    assert_eq!(
        diff("a  b", "a b", " "),
        (1, vec![Same("a ".to_string()), Rem(" ".to_string()), Same("b".to_string())])
    );
}

#[test]
fn empty_text_against_a_word() {
    assert_eq!(diff("", "a", " "), (2, vec![Add("a".to_string())]));
    assert_eq!(diff("", "a", ""), (1, vec![Add("a".to_string())]));
}

#[test]
fn shared_empty_last_word_gives_no_entry() {
    assert_eq!(diff("a ", "b ", " "), (2, vec![Rem("a ".to_string()), Add("b ".to_string())]));
}

#[test]
fn lines_replaced_and_added() {
    assert_eq!(
        diff("one\ntwo\nthree", "one\nthree\nfour", "\n"),
        (
            2,
            vec![
                Same("one\n".to_string()),
                Rem("two\n".to_string()),
                Same("three".to_string()),
                Add("\nfour".to_string())
            ]
        )
    );
}

#[test]
fn words_of_a_sentence() {
    assert_eq!(
        diff("the quick brown fox", "the slow brown dog jumps", " "),
        (
            5,
            vec![
                Same("the ".to_string()),
                Rem("quick ".to_string()),
                Add("slow ".to_string()),
                Same("brown ".to_string()),
                Rem("fox".to_string()),
                Add("dog jumps".to_string())
            ]
        )
    );
}

#[test]
fn characters_of_two_words() {
    assert_eq!(
        diff("kitten", "sitting", ""),
        (
            5,
            vec![
                Rem("k".to_string()),
                Add("s".to_string()),
                Same("itt".to_string()),
                Rem("e".to_string()),
                Add("i".to_string()),
                Same("n".to_string()),
                Add("g".to_string())
            ]
        )
    );
}

#[test]
fn characters_beyond_ascii() {
    assert_eq!(
        diff("h\u{e9}llo w\u{f6}rld", "hello w\u{f6}rld!", ""),
        (
            3,
            vec![
                Same("h".to_string()),
                Rem("\u{e9}".to_string()),
                Add("e".to_string()),
                Same("llo w\u{f6}rld".to_string()),
                Add("!".to_string())
            ]
        )
    );
}

#[test]
fn swapped_characters_keep_the_first_of_the_original() {
    assert_eq!(
        diff("ab", "ba", ""),
        (2, vec![Add("b".to_string()), Same("a".to_string()), Rem("b".to_string())])
    );
}

#[test]
fn fields_with_empty_values() {
    assert_eq!(
        diff("a,b,,c", ",a,b,c,", ","),
        (
            3,
            vec![
                Add(",".to_string()),
                Same("a,b,".to_string()),
                Add("c,".to_string()),
                Rem(",c".to_string())
            ]
        )
    );
}

#[test]
fn text_against_itself_is_one_shared_entry() {
    for text in SAMPLES.iter() {
        for split in SPLITS.iter() {
            let expected = if text.is_empty() { vec![] } else { vec![Same(text.to_string())] };
            assert_eq!(diff(text, text, split), (0, expected), "{:?} by {:?}", text, split);
        }
    }
}

#[test]
fn distance_is_the_same_in_both_directions() {
    for orig in SAMPLES.iter() {
        for edit in SAMPLES.iter() {
            for split in SPLITS.iter() {
                assert_eq!(diff(orig, edit, split).0, diff(edit, orig, split).0);
            }
        }
    }
}

#[test]
fn entries_give_both_texts_back() {
    for orig in SAMPLES.iter() {
        for edit in SAMPLES.iter() {
            for split in SPLITS.iter() {
                let (_, changeset) = diff(orig, edit, split);
                assert_eq!(first_text(&changeset), *orig, "{:?} {:?} {:?}", orig, edit, split);
                assert_eq!(second_text(&changeset), *edit, "{:?} {:?} {:?}", orig, edit, split);
            }
        }
    }
}

#[test]
fn neighbours_differ_in_kind_and_no_entry_is_empty() {
    for orig in SAMPLES.iter() {
        for edit in SAMPLES.iter() {
            for split in SPLITS.iter() {
                let (_, changeset) = diff(orig, edit, split);
                for entry in changeset.iter() {
                    assert!(!text_of(entry).is_empty());
                }
                for pair in changeset.windows(2) {
                    assert_ne!(kind_of(&pair[0]), kind_of(&pair[1]));
                }
            }
        }
    }
}

#[test]
fn distance_is_at_most_the_number_of_tokens() {
    for orig in SAMPLES.iter() {
        for edit in SAMPLES.iter() {
            for split in SPLITS.iter() {
                let (distance, _) = diff(orig, edit, split);
                let tokens = text_diff::tokens::tokenize(orig, split).len()
                    + text_diff::tokens::tokenize(edit, split).len();
                assert!(0 <= distance && distance as usize <= tokens);
            }
        }
    }
}

#[test]
fn distance_counts_the_removed_and_added_characters() {
    for orig in SAMPLES.iter() {
        for edit in SAMPLES.iter() {
            let (distance, changeset) = diff(orig, edit, "");
            let mut changed = 0;
            for entry in changeset.iter() {
                if kind_of(entry) != 0 {
                    changed += text_of(entry).chars().count();
                }
            }
            assert_eq!(distance as usize, changed, "{:?} {:?}", orig, edit);
        }
    }
}

#[test]
fn changeset_is_the_changeset_of_diff() {
    for orig in SAMPLES.iter() {
        for edit in SAMPLES.iter() {
            for split in SPLITS.iter() {
                assert_eq!(changeset(orig, edit, split), diff(orig, edit, split).1);
            }
        }
    }
    assert_eq!(
        changeset("Diffs are awesome", "Diffs are cool", " "),
        vec![Same("Diffs are ".to_string()), Rem("awesome".to_string()), Add("cool".to_string())]
    );
}

#[test]
fn checked_diff_gives_what_diff_gives() {
    for orig in SAMPLES.iter() {
        for edit in SAMPLES.iter() {
            for split in SPLITS.iter() {
                assert_eq!(checked_diff(orig, edit, split), Some(diff(orig, edit, split)));
            }
        }
    }
}
