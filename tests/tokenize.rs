use korrektor::tokenize::{a_correct, create_map, i_correct, split_word, syllabify_canonical, Script};

#[test]
fn a_correct_test() {
    assert_eq!(a_correct(&String::from("G'g' O'o' ShSHsh ChCHch ʻʼ'‘’‛′ʽ`")), String::from("ğğ ŏŏ ššš ččč ʼʼʼʼʼʼʼʼʼ"));
}

#[test]
fn i_correct_test() {
    assert_eq!(i_correct(&String::from("ğ ŏ š č")), String::from("g‘ o‘ sh ch"));
}

#[test]
fn create_map_test() {
    assert_eq!(create_map(&"CVCCVCCVCVC".to_string()), vec![3, 3, 2, 3]);
}

#[test]
fn do_test() {
    assert_eq!(split_word("singil"), "si-ngil");
    assert_eq!(split_word("chiroyli"), "chi-roy-li");
    assert_eq!(split_word("чиройли"), "чи-рой-ли");
}

#[test]
fn create_map_unmatched_joins_previous() {
    // a consonant cluster that no rule covers
    assert_eq!(create_map("CCCV"), vec![1, 3]);
    assert_eq!(create_map("CVC_VC"), vec![4, 2]);
    assert_eq!(create_map(""), Vec::<usize>::new());
}

#[test]
fn lower_case_round_trip() {
    for w in ["g‘ozal", "o‘zbek", "shahar", "choy", "san\u{2bc}at"] {
        assert_eq!(i_correct(&a_correct(w)), w);
    }
}

#[test]
fn split_word_edges() {
    assert_eq!(split_word(""), "");
    assert_eq!(split_word("  Kitob "), "ki-tob");
    assert_eq!(split_word("san'at"), "sanʼ-at");
    assert_eq!(split_word("o‘zbek"), "o‘z-bek");
}

#[test]
fn syllables_keep_letters() {
    for w in ["kitoblar", "maktab", "o‘qituvchi", "shahar", "тошкент", "dengiz", "g‘alaba", "tekst"] {
        let s = split_word(w);
        assert_eq!(s.replace('-', ""), w);
    }
}

#[test]
fn syllabify_by_script() {
    assert_eq!(syllabify_canonical("kitob", Script::Latin), "ki-tob");
    assert_eq!(syllabify_canonical("kitob", Script::Unknown), "kitob");
    assert_eq!(syllabify_canonical("singil", Script::Cyrillic), "singil");
}
