use criterion_table::text::{replace, same, split};
use criterion_table::CriterionTableData;

#[test]
fn split_gives_every_field() {
    assert_eq!(split("a/b/c", '/'), ["a", "b", "c"]);
    assert_eq!(split("", '/'), [""]);
    assert_eq!(split("/", '/'), ["", ""]);
    assert_eq!(split("a//b/", '/'), ["a", "", "b", ""]);
    assert_eq!(split("\u{e9}t\u{e9}/\u{4e2d}", '/'), ["\u{e9}t\u{e9}", "\u{4e2d}"]);
}

#[test]
fn split_agrees_with_the_standard_library() {
    for text in ["", "x", "/x", "x/", "x//y", "//", "one/two/three/four"] {
        let expected: Vec<&str> = text.split('/').collect();
        assert_eq!(split(text, '/'), expected);
        assert_eq!(split(text, '/').join("/"), text);
    }
}

#[test]
fn replace_leaves_the_rest() {
    assert_eq!(replace("a b  c", ' ', '_'), "a_b__c");
    assert_eq!(replace("", ' ', '_'), "");
    assert_eq!(replace("abc", ' ', '_'), "abc");
}

#[test]
fn same_compares_all_characters() {
    assert!(same("", ""));
    assert!(same("ms", "ms"));
    assert!(!same("ms", "us"));
    assert!(!same("m", "ms"));
}

#[test]
fn keys_are_lower_case_without_spaces() {
    assert_eq!(CriterionTableData::encode_key("My Table"), "my_table");
    assert_eq!(CriterionTableData::encode_key("already_there"), "already_there");
    assert_eq!(CriterionTableData::encode_key(""), "");
    assert_eq!(
        CriterionTableData::encode_key("A Name That Does Not Fit Into A Few Bytes At All [1-2]"),
        "a_name_that_does_not_fit_into_a_few_bytes_at_all_[1-2]"
    );
}

#[test]
fn keys_lower_each_character_on_its_own() {
    assert_eq!(
        CriterionTableData::encode_key("\u{c4}\u{d6} \u{dc}"),
        "\u{e4}\u{f6}_\u{fc}"
    );
    // A capital sigma becomes the same small letter wherever it stands.
    assert_eq!(
        CriterionTableData::encode_key("\u{391}\u{3a3}"),
        "\u{3b1}\u{3c3}"
    );
    // One character can become two.
    assert_eq!(CriterionTableData::encode_key("\u{130}"), "i\u{307}");
}
