use korrektor::alphabetic::{
    collation_rank, compare, from_sortable, get_exceptioned_value, is_exceptioned, sort,
    sort_sortable, sort_words, to_sortable, usort, CollationError,
};
use std::cmp::Ordering;

#[test]
fn to_sortable_test() {
    let result = to_sortable("G'g' O'o' ShSHsh ChCHch ʻʼ'‘’‛′ʽ`".to_string());
    assert_eq!(result, "Ğğ Ŏŏ ŠÖš ČÜč ʼʼʼʼʼʼʼʼʼ");
}

#[test]
fn from_sortable_test() {
    let result = from_sortable("Ğğ Ŏŏ ŠÖš ČÜč".to_string());
    assert_eq!(result, "G‘g‘ O‘o‘ ShSHsh ChCHch");
}

#[test]
fn is_exceptioned_test() {
    assert!(is_exceptioned('Ö'));
    assert!(is_exceptioned('Ü'));
}

#[test]
fn get_exceptioned_value_test() {
    assert_eq!(get_exceptioned_value('Ö'), 113);
    assert_eq!(get_exceptioned_value('Ü'), 115);
}

#[test]
fn usort_test() {
    assert_eq!(usort("čiroyli", "čilonzor"), Ok(1));
    assert_eq!(usort("čiroyli", "čiroyli"), Ok(0));
    assert_eq!(usort("čilonzor", "čiroyli"), Ok(-1));
}

#[test]
fn get_sorted_text_test() {
    let input = String::from("G‘ozal estafeta chilonzor o'zbek chiroyli");
    let output = String::from("estafeta\no‘zbek\nchilonzor\nchiroyli\nG‘ozal\n");
    assert_eq!(sort(input), Ok(output))
}

#[test]
fn apostrophe_variants_collapse() {
    let expected = to_sortable("gʻ".to_string());
    for v in ['ʻ', 'ʼ', '\'', '‘', '’', '‛', '′', 'ʽ', '`'] {
        assert_eq!(to_sortable(format!("g{v}")), expected);
        assert_eq!(to_sortable(format!("O{v}")), "Ŏ");
        assert_eq!(to_sortable(format!("bog{v}ni O{v}rol")), "boğni Ŏrol");
    }
    assert_eq!(expected, "ğ");
}

#[test]
fn round_trip_on_canonical_spelling() {
    for w in ["G‘ozal", "o‘zbek", "Shahar", "SHAHAR", "choy", "CHOY", "san\u{2bc}at", "kitob"] {
        assert_eq!(from_sortable(to_sortable(w.to_string())), w);
    }
    // a variant apostrophe comes back as the canonical one
    assert_eq!(from_sortable(to_sortable("o'zbek".to_string())), "o‘zbek");
}

#[test]
fn sort_words_example() {
    let words: Vec<String> = ["G‘ozal", "estafeta", "chilonzor", "o'zbek", "chiroyli"]
        .iter()
        .map(|w| w.to_string())
        .collect();
    let sorted = sort_words(&words).unwrap();
    assert_eq!(sorted, vec!["estafeta", "o‘zbek", "chilonzor", "chiroyli", "G‘ozal"]);
}

#[test]
fn sort_words_empty_and_equal() {
    assert_eq!(sort_words(&Vec::new()), Ok(Vec::new()));
    let words = vec!["ona".to_string(), "ona".to_string(), "ota".to_string()];
    assert_eq!(sort_words(&words).unwrap(), vec!["ona", "ona", "ota"]);
    assert_eq!(sort(String::new()), Ok(String::new()));
}

#[test]
fn sort_sortable_orders_digraph_sentinels() {
    let words = vec!["Ğ".to_string(), "Š".to_string(), "Ö".to_string(), "Ü".to_string(), "Č".to_string()];
    assert_eq!(sort_sortable(&words), vec!["Ğ", "Š", "Ö", "Č", "Ü"]);
    for c in ['Ğ', 'Š', 'Č'] {
        let r = collation_rank(c).unwrap();
        assert_ne!(r, get_exceptioned_value('Ö'));
        assert_ne!(r, get_exceptioned_value('Ü'));
    }
}

#[test]
fn compare_is_a_total_order() {
    assert_eq!(compare("chiroyli", "chilonzor"), Ok(Ordering::Greater));
    assert_eq!(compare("chilonzor", "chiroyli"), Ok(Ordering::Less));
    assert_eq!(compare("o'zbek", "o‘zbek"), Ok(Ordering::Equal));
    assert_eq!(compare("ota", "otalar"), Ok(Ordering::Less));
    assert_eq!(compare("вода", "бола"), Ok(Ordering::Greater));
    assert_eq!(compare("Вода", "вода"), Ok(Ordering::Greater));
    let (a, b, c) = ("estafeta", "o‘zbek", "G‘ozal");
    assert_eq!(compare(a, b), Ok(Ordering::Less));
    assert_eq!(compare(b, c), Ok(Ordering::Less));
    assert_eq!(compare(a, c), Ok(Ordering::Less));
    assert_eq!(compare(c, a), Ok(Ordering::Greater));
}

#[test]
fn unknown_grapheme_is_an_error() {
    assert_eq!(collation_rank('w'), None);
    assert_eq!(collation_rank('a'), Some(2));
    assert_eq!(collation_rank('Ö'), Some(113));
    assert_eq!(collation_rank('Ü'), Some(115));
    assert_eq!(
        compare("kitob", "wow"),
        Err(CollationError::UnknownGrapheme { grapheme: 'w', position: 0 })
    );
    assert_eq!(
        compare("aw", "w"),
        Err(CollationError::UnknownGrapheme { grapheme: 'w', position: 0 })
    );
    assert_eq!(
        compare("ab", "aw"),
        Err(CollationError::UnknownGrapheme { grapheme: 'w', position: 1 })
    );
    // the words differ before the unranked character is reached
    assert_eq!(compare("b1", "a"), Ok(Ordering::Greater));
    assert_eq!(
        usort("1a", "ab"),
        Err(CollationError::UnknownGrapheme { grapheme: '1', position: 0 })
    );
    assert_eq!(
        sort("ona 7x".to_string()),
        Err(CollationError::UnknownGrapheme { grapheme: '7', position: 0 })
    );
}
