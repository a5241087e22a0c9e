use korrektor::number::{base, hundred, integer_to_word, one};

#[test]
fn base_test() {
    assert_eq!(base(532, 2), String::from("besh yuz"));
}

#[test]
fn one_test() {
    assert_eq!(one(532, 2), String::from("besh yuz o‘ttiz ikki"));
}

#[test]
fn hundred_test() {
    assert_eq!(hundred(3456, 3), String::from("uch ming to‘rt yuz ellik olti"));
}

#[test]
fn cw_test() {
    assert_eq!(integer_to_word(0), String::from("nol"));
    assert_eq!(integer_to_word(9), String::from("to‘qqiz"));
    assert_eq!(integer_to_word(32), String::from("o‘ttiz ikki"));
    assert_eq!(integer_to_word(104), String::from("bir yuz to‘rt"));
    assert_eq!(integer_to_word(1024), String::from("bir ming yigirma to‘rt"));
    assert_eq!(integer_to_word(3456), String::from("uch ming to‘rt yuz ellik olti"));
}

#[test]
fn groups_below_their_size() {
    assert_eq!(base(5, 2), "nol yuz");
    assert_eq!(base(0, 3), "nol ming");
    assert_eq!(one(50, 3), "nol ming ellik");
    assert_eq!(base(-5, 2), "nol yuz");
    assert_eq!(hundred(7, 3), "nol ming yetti");
    assert_eq!(base(2_000_000_000_000_000_000, 18), "ikki kvintilion");
}

#[test]
fn round_numbers_have_no_zero_word() {
    assert_eq!(integer_to_word(20), "yigirma");
    assert_eq!(integer_to_word(100), "bir yuz");
    assert_eq!(integer_to_word(1000), "bir ming");
    assert_eq!(integer_to_word(1_000_000), "bir million");
    assert_eq!(integer_to_word(2_000_300), "ikki million uch yuz");
    assert_eq!(one(500, 2), "besh yuz");
    assert_eq!(hundred(3000, 3), "uch ming");
    for n in [10, 40, 90, 110, 200, 1010, 70_000, 500_000_000] {
        assert!(!integer_to_word(n).contains("nol"), "{n}");
    }
}

#[test]
fn larger_numbers() {
    assert_eq!(integer_to_word(19), "o‘n to‘qqiz");
    assert_eq!(
        integer_to_word(1_234_567),
        "bir million ikki yuz o‘ttiz to‘rt ming besh yuz oltmish yetti"
    );
    assert_eq!(integer_to_word(999_999_999_999_999_999).starts_with("to‘qqiz yuz to‘qson to‘qqiz kvadrillion"), true);
}
