use text_diff::color::colorize;
use text_diff::diff;
use text_diff::Difference::{Add, Rem, Same};

#[test]
fn shared_text_is_not_painted() {
    assert_eq!(colorize(&vec![Same("plain".to_string())]), "plain");
}

#[test]
fn added_text_is_green() {
    assert_eq!(colorize(&vec![Add("new".to_string())]), "\x1B[92mnew\x1B[0m");
}

#[test]
fn removed_text_is_red() {
    assert_eq!(colorize(&vec![Rem("gone".to_string())]), "\x1B[91mgone\x1B[0m");
}

#[test]
fn empty_changeset_is_empty_text() {
    assert_eq!(colorize(&vec![]), "");
}

#[test]
fn entries_are_painted_in_order() {
    let (_, changeset) = diff("Diffs are awesome", "Diffs are cool", " ");
    assert_eq!(colorize(&changeset), "Diffs are \x1B[91mawesome\x1B[0m\x1B[92mcool\x1B[0m");
}
