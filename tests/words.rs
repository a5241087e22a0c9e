use korrektor::words::{count, remove, remove_duplicates, word_frequency};
use std::collections::HashMap;

#[test]
fn remove_duplicates_test() {
    assert_eq!(remove_duplicates(String::from("salom salom xato salom")), String::from("salom xato"));
}

#[test]
fn mod_remove_duplicates_test() {
    assert_eq!(remove("salom salom xato salom"), String::from("salom xato"));
}

#[test]
fn word_frequency_test() {
    assert_eq!(
        word_frequency(String::from("salom xato quyosh salom mushuk")),
        HashMap::from([
            (String::from("salom"), 2),
            (String::from("xato"), 1),
            (String::from("quyosh"), 1),
            (String::from("mushuk"), 1)
        ])
    );
}

#[test]
fn mod_word_frequency_test() {
    assert_eq!(
        count("salom xato quyosh salom mushuk"),
        HashMap::from([
            (String::from("salom"), 2),
            (String::from("xato"), 1),
            (String::from("quyosh"), 1),
            (String::from("mushuk"), 1)
        ])
    );
}

#[test]
fn texts_without_words() {
    assert_eq!(remove("  ...  "), "  ...  ");
    assert_eq!(remove(""), "");
    assert!(count("!!! ???").is_empty());
    assert_eq!(remove(" b  a b  c a "), "b a c");
    assert_eq!(count("— 7 — 7"), HashMap::from([(String::from("—"), 2), (String::from("7"), 2)]));
}
