//! Alphabetical order of Uzbek words, in Latin and Cyrillic spelling.
//!
//! Words are compared in their cased canonical spelling (see `spelling`),
//! character by character, by each character's place in the alphabet table.
use vstd::prelude::*;
use crate::spelling::{canonical, canonicalize_chars, expanded, expand_chars};
use crate::text::{chars_of, string_of, split_whitespace, views, words_of};

verus! {

/// The place of `c` in the alphabet table: Latin lower and upper case, then
/// Cyrillic lower and upper case. Each letter has one place.
pub open spec fn table_position(c: char) -> Option<usize> {
    match c {
        'ê' => Some(0),
        'a' => Some(1),
        'b' => Some(2),
        'd' => Some(3),
        'e' => Some(4),
        'f' => Some(5),
        'g' => Some(6),
        'h' => Some(7),
        'i' => Some(8),
        'j' => Some(9),
        'k' => Some(10),
        'l' => Some(11),
        'm' => Some(12),
        'n' => Some(13),
        'o' => Some(14),
        'p' => Some(15),
        'q' => Some(16),
        'r' => Some(17),
        's' => Some(18),
        't' => Some(19),
        'u' => Some(20),
        'v' => Some(21),
        'x' => Some(22),
        'y' => Some(23),
        'z' => Some(24),
        'ŏ' => Some(25),
        'ğ' => Some(26),
        'š' => Some(27),
        'č' => Some(28),
        'Ê' => Some(29),
        'A' => Some(30),
        'B' => Some(31),
        'D' => Some(32),
        'E' => Some(33),
        'F' => Some(34),
        'G' => Some(35),
        'H' => Some(36),
        'I' => Some(37),
        'J' => Some(38),
        'K' => Some(39),
        'L' => Some(40),
        'M' => Some(41),
        'N' => Some(42),
        'O' => Some(43),
        'P' => Some(44),
        'Q' => Some(45),
        'R' => Some(46),
        'S' => Some(47),
        'T' => Some(48),
        'U' => Some(49),
        'V' => Some(50),
        'X' => Some(51),
        'Y' => Some(52),
        'Z' => Some(53),
        'Ŏ' => Some(54),
        'Ğ' => Some(55),
        'Š' => Some(56),
        'Č' => Some(57),
        'а' => Some(58),
        'б' => Some(59),
        'д' => Some(60),
        'г' => Some(61),
        'в' => Some(62),
        'е' => Some(63),
        'ё' => Some(64),
        'ж' => Some(65),
        'з' => Some(66),
        'и' => Some(67),
        'й' => Some(68),
        'к' => Some(69),
        'л' => Some(70),
        'м' => Some(71),
        'н' => Some(72),
        'о' => Some(73),
        'п' => Some(74),
        'р' => Some(75),
        'с' => Some(76),
        'т' => Some(77),
        'у' => Some(78),
        'ф' => Some(79),
        'х' => Some(80),
        'ц' => Some(81),
        'ч' => Some(82),
        'ш' => Some(83),
        'ъ' => Some(84),
        'ь' => Some(85),
        'э' => Some(86),
        'я' => Some(87),
        'ю' => Some(88),
        'ў' => Some(89),
        'қ' => Some(90),
        'ғ' => Some(91),
        'ҳ' => Some(92),
        'А' => Some(93),
        'Б' => Some(94),
        'Д' => Some(95),
        'Г' => Some(96),
        'В' => Some(97),
        'Е' => Some(98),
        'Ё' => Some(99),
        'Ж' => Some(100),
        'З' => Some(101),
        'И' => Some(102),
        'Й' => Some(103),
        'К' => Some(104),
        'Л' => Some(105),
        'М' => Some(106),
        'Н' => Some(107),
        'О' => Some(108),
        'П' => Some(109),
        'Р' => Some(110),
        'С' => Some(111),
        'Т' => Some(112),
        'У' => Some(113),
        'Ф' => Some(114),
        'Х' => Some(115),
        'Ц' => Some(116),
        'Ч' => Some(117),
        'Ш' => Some(118),
        'Ъ' => Some(119),
        'Ь' => Some(120),
        'Э' => Some(121),
        'Ю' => Some(122),
        'Я' => Some(123),
        'Ў' => Some(124),
        'Қ' => Some(125),
        'Ғ' => Some(126),
        'Ҳ' => Some(127),
        _ => None,
    }
}

/// The letter at place `k` of the alphabet table.
pub open spec fn table_letter(k: usize) -> char {
    match k {
        0 => 'ê',
        1 => 'a',
        2 => 'b',
        3 => 'd',
        4 => 'e',
        5 => 'f',
        6 => 'g',
        7 => 'h',
        8 => 'i',
        9 => 'j',
        10 => 'k',
        11 => 'l',
        12 => 'm',
        13 => 'n',
        14 => 'o',
        15 => 'p',
        16 => 'q',
        17 => 'r',
        18 => 's',
        19 => 't',
        20 => 'u',
        21 => 'v',
        22 => 'x',
        23 => 'y',
        24 => 'z',
        25 => 'ŏ',
        26 => 'ğ',
        27 => 'š',
        28 => 'č',
        29 => 'Ê',
        30 => 'A',
        31 => 'B',
        32 => 'D',
        33 => 'E',
        34 => 'F',
        35 => 'G',
        36 => 'H',
        37 => 'I',
        38 => 'J',
        39 => 'K',
        40 => 'L',
        41 => 'M',
        42 => 'N',
        43 => 'O',
        44 => 'P',
        45 => 'Q',
        46 => 'R',
        47 => 'S',
        48 => 'T',
        49 => 'U',
        50 => 'V',
        51 => 'X',
        52 => 'Y',
        53 => 'Z',
        54 => 'Ŏ',
        55 => 'Ğ',
        56 => 'Š',
        57 => 'Č',
        58 => 'а',
        59 => 'б',
        60 => 'д',
        61 => 'г',
        62 => 'в',
        63 => 'е',
        64 => 'ё',
        65 => 'ж',
        66 => 'з',
        67 => 'и',
        68 => 'й',
        69 => 'к',
        70 => 'л',
        71 => 'м',
        72 => 'н',
        73 => 'о',
        74 => 'п',
        75 => 'р',
        76 => 'с',
        77 => 'т',
        78 => 'у',
        79 => 'ф',
        80 => 'х',
        81 => 'ц',
        82 => 'ч',
        83 => 'ш',
        84 => 'ъ',
        85 => 'ь',
        86 => 'э',
        87 => 'я',
        88 => 'ю',
        89 => 'ў',
        90 => 'қ',
        91 => 'ғ',
        92 => 'ҳ',
        93 => 'А',
        94 => 'Б',
        95 => 'Д',
        96 => 'Г',
        97 => 'В',
        98 => 'Е',
        99 => 'Ё',
        100 => 'Ж',
        101 => 'З',
        102 => 'И',
        103 => 'Й',
        104 => 'К',
        105 => 'Л',
        106 => 'М',
        107 => 'Н',
        108 => 'О',
        109 => 'П',
        110 => 'Р',
        111 => 'С',
        112 => 'Т',
        113 => 'У',
        114 => 'Ф',
        115 => 'Х',
        116 => 'Ц',
        117 => 'Ч',
        118 => 'Ш',
        119 => 'Ъ',
        120 => 'Ь',
        121 => 'Э',
        122 => 'Ю',
        123 => 'Я',
        124 => 'Ў',
        125 => 'Қ',
        126 => 'Ғ',
        127 => 'Ҳ',
        _ => ' ',
    }
}

proof fn lemma_table_letter(c: char)
    requires
        table_position(c) is Some,
    ensures
        table_letter(table_position(c).unwrap()) == c,
{
}

fn table_index(c: char) -> (r: Option<usize>)
    ensures
        r == table_position(c),
{
    match c {
        'ê' => Some(0),
        'a' => Some(1),
        'b' => Some(2),
        'd' => Some(3),
        'e' => Some(4),
        'f' => Some(5),
        'g' => Some(6),
        'h' => Some(7),
        'i' => Some(8),
        'j' => Some(9),
        'k' => Some(10),
        'l' => Some(11),
        'm' => Some(12),
        'n' => Some(13),
        'o' => Some(14),
        'p' => Some(15),
        'q' => Some(16),
        'r' => Some(17),
        's' => Some(18),
        't' => Some(19),
        'u' => Some(20),
        'v' => Some(21),
        'x' => Some(22),
        'y' => Some(23),
        'z' => Some(24),
        'ŏ' => Some(25),
        'ğ' => Some(26),
        'š' => Some(27),
        'č' => Some(28),
        'Ê' => Some(29),
        'A' => Some(30),
        'B' => Some(31),
        'D' => Some(32),
        'E' => Some(33),
        'F' => Some(34),
        'G' => Some(35),
        'H' => Some(36),
        'I' => Some(37),
        'J' => Some(38),
        'K' => Some(39),
        'L' => Some(40),
        'M' => Some(41),
        'N' => Some(42),
        'O' => Some(43),
        'P' => Some(44),
        'Q' => Some(45),
        'R' => Some(46),
        'S' => Some(47),
        'T' => Some(48),
        'U' => Some(49),
        'V' => Some(50),
        'X' => Some(51),
        'Y' => Some(52),
        'Z' => Some(53),
        'Ŏ' => Some(54),
        'Ğ' => Some(55),
        'Š' => Some(56),
        'Č' => Some(57),
        'а' => Some(58),
        'б' => Some(59),
        'д' => Some(60),
        'г' => Some(61),
        'в' => Some(62),
        'е' => Some(63),
        'ё' => Some(64),
        'ж' => Some(65),
        'з' => Some(66),
        'и' => Some(67),
        'й' => Some(68),
        'к' => Some(69),
        'л' => Some(70),
        'м' => Some(71),
        'н' => Some(72),
        'о' => Some(73),
        'п' => Some(74),
        'р' => Some(75),
        'с' => Some(76),
        'т' => Some(77),
        'у' => Some(78),
        'ф' => Some(79),
        'х' => Some(80),
        'ц' => Some(81),
        'ч' => Some(82),
        'ш' => Some(83),
        'ъ' => Some(84),
        'ь' => Some(85),
        'э' => Some(86),
        'я' => Some(87),
        'ю' => Some(88),
        'ў' => Some(89),
        'қ' => Some(90),
        'ғ' => Some(91),
        'ҳ' => Some(92),
        'А' => Some(93),
        'Б' => Some(94),
        'Д' => Some(95),
        'Г' => Some(96),
        'В' => Some(97),
        'Е' => Some(98),
        'Ё' => Some(99),
        'Ж' => Some(100),
        'З' => Some(101),
        'И' => Some(102),
        'Й' => Some(103),
        'К' => Some(104),
        'Л' => Some(105),
        'М' => Some(106),
        'Н' => Some(107),
        'О' => Some(108),
        'П' => Some(109),
        'Р' => Some(110),
        'С' => Some(111),
        'Т' => Some(112),
        'У' => Some(113),
        'Ф' => Some(114),
        'Х' => Some(115),
        'Ц' => Some(116),
        'Ч' => Some(117),
        'Ш' => Some(118),
        'Ъ' => Some(119),
        'Ь' => Some(120),
        'Э' => Some(121),
        'Ю' => Some(122),
        'Я' => Some(123),
        'Ў' => Some(124),
        'Қ' => Some(125),
        'Ғ' => Some(126),
        'Ҳ' => Some(127),
        _ => None,
    }
}

/// The canonical sentinels of `SH` and `CH` have no table place; they get
/// ranks of their own (odd, where every table rank is even), right after
/// those of `Sh` (`Š`) and `Ch` (`Č`).
pub open spec fn exceptioned(c: char) -> bool {
    c == 'Ö' || c == 'Ü'
}

pub open spec fn exceptioned_value(c: char) -> usize {
    if c == 'Ö' {
        113
    } else if c == 'Ü' {
        115
    } else {
        0
    }
}

pub fn is_exceptioned(value: char) -> (r: bool)
    ensures
        r == exceptioned(value),
{
    value == 'Ö' || value == 'Ü'
}

pub fn get_exceptioned_value(value: char) -> (r: usize)
    ensures
        r == exceptioned_value(value),
{
    if value == 'Ö' {
        return 113;
    }
    if value == 'Ü' {
        return 115;
    }
    0
}

/// Collation rank of `c`: twice its table place, or, for the two
/// exceptioned sentinels, their own rank.
pub open spec fn rank_of(c: char) -> Option<usize> {
    if exceptioned(c) {
        Some(exceptioned_value(c))
    } else {
        match table_position(c) {
            Some(k) => Some((2 * k) as usize),
            None => None,
        }
    }
}

pub open spec fn rank_value(c: char) -> int {
    match rank_of(c) {
        Some(k) => k as int,
        None => -1,
    }
}

pub open spec fn all_ranked(s: Seq<char>) -> bool {
    forall|i: int| 0 <= i < s.len() ==> (#[trigger] rank_of(s[i])) is Some
}

proof fn lemma_rank_injective(x: char, y: char)
    requires
        rank_of(x) is Some,
        rank_of(y) is Some,
        rank_of(x) == rank_of(y),
    ensures
        x == y,
{
    if !exceptioned(x) && !exceptioned(y) {
        lemma_table_letter(x);
        lemma_table_letter(y);
    } else if !exceptioned(x) {
        lemma_table_letter(x);
    } else if !exceptioned(y) {
        lemma_table_letter(y);
    }
}

/// Why a word cannot be collated.
#[derive(Debug, Clone, Copy, PartialEq, Eq, Structural)]
pub enum CollationError {
    /// `grapheme`, at character `position` of the canonical word, has no rank.
    UnknownGrapheme { grapheme: char, position: usize },
}

/// `e` names the first character of `s` that has no rank.
pub open spec fn first_unranked(s: Seq<char>, e: CollationError) -> bool {
    match e {
        CollationError::UnknownGrapheme { grapheme, position } => {
            &&& position < s.len()
            &&& s[position as int] == grapheme
            &&& rank_of(grapheme) is None
            &&& forall|j: int| 0 <= j < position ==> (#[trigger] rank_of(s[j])) is Some
        },
    }
}

/// The collation rank of `c`, if the alphabet table knows it.
pub fn collation_rank(c: char) -> (r: Option<usize>)
    ensures
        r == rank_of(c),
{
    if is_exceptioned(c) {
        Some(get_exceptioned_value(c))
    } else {
        match table_index(c) {
            Some(k) => Some(2 * k),
            None => None,
        }
    }
}

/// Checks that every character of `word` has a rank.
pub fn check_ranked(word: &Vec<char>) -> (r: Result<(), CollationError>)
    ensures
        r is Ok <==> all_ranked(word@),
        r matches Err(e) ==> first_unranked(word@, e),
{
    let mut i: usize = 0;
    while i < word.len()
        invariant
            i <= word@.len(),
            forall|j: int| 0 <= j < i ==> (#[trigger] rank_of(word@[j])) is Some,
        decreases word@.len() - i,
    {
        let c = word[i];
        if collation_rank(c).is_none() {
            return Err(CollationError::UnknownGrapheme { grapheme: c, position: i });
        }
        i = i + 1;
    }
    Ok(())
}

/// Comparison of two words by rank, character by character; a proper prefix
/// comes first. The result is -1, 0 or 1.
pub open spec fn collate(a: Seq<char>, b: Seq<char>) -> int
    decreases a.len(),
{
    if a.len() == 0 {
        if b.len() == 0 {
            0
        } else {
            -1
        }
    } else if b.len() == 0 {
        1
    } else if rank_value(a[0]) < rank_value(b[0]) {
        -1
    } else if rank_value(a[0]) > rank_value(b[0]) {
        1
    } else {
        collate(a.skip(1), b.skip(1))
    }
}

/// Comparison of two words by rank, index by index from `pos` on, as far as
/// both have a character: the first unranked character met there (the one of
/// `a` before the one of `b`) is an error; otherwise as `collate`.
pub open spec fn collate_checked(a: Seq<char>, b: Seq<char>, pos: nat) -> Result<
    int,
    CollationError,
>
    decreases a.len(),
{
    if a.len() == 0 || b.len() == 0 {
        Ok(collate(a, b))
    } else if rank_of(a[0]) is None {
        Err(CollationError::UnknownGrapheme { grapheme: a[0], position: pos as usize })
    } else if rank_of(b[0]) is None {
        Err(CollationError::UnknownGrapheme { grapheme: b[0], position: pos as usize })
    } else if rank_value(a[0]) != rank_value(b[0]) {
        Ok(collate(a, b))
    } else {
        collate_checked(a.skip(1), b.skip(1), pos + 1)
    }
}

proof fn lemma_collate_checked_ranked(a: Seq<char>, b: Seq<char>, pos: nat)
    requires
        all_ranked(a),
        all_ranked(b),
    ensures
        collate_checked(a, b, pos) == Ok::<int, CollationError>(collate(a, b)),
    decreases a.len(),
{
    if a.len() > 0 && b.len() > 0 {
        assert(rank_of(a[0]) is Some);
        assert(rank_of(b[0]) is Some);
        assert forall|i: int| 0 <= i < a.skip(1).len() implies (#[trigger] rank_of(
            a.skip(1)[i],
        )) is Some by {
            assert(rank_of(a[i + 1]) is Some);
        }
        assert forall|i: int| 0 <= i < b.skip(1).len() implies (#[trigger] rank_of(
            b.skip(1)[i],
        )) is Some by {
            assert(rank_of(b[i + 1]) is Some);
        }
        lemma_collate_checked_ranked(a.skip(1), b.skip(1), pos + 1);
    }
}

/// Compares two words already in canonical spelling: -1, 0 or 1, or the
/// first unranked character met before the words differ.
pub fn usort(string1: &str, string2: &str) -> (r: Result<i8, CollationError>)
    ensures
        r is Ok <==> collate_checked(string1@, string2@, 0) is Ok,
        r matches Ok(d) ==> collate_checked(string1@, string2@, 0) == Ok::<int, CollationError>(
            d as int,
        ),
        r matches Err(e) ==> collate_checked(string1@, string2@, 0) == Err::<int, CollationError>(
            e,
        ),
{
    let a = chars_of(string1);
    let b = chars_of(string2);
    let mut i: usize = 0;
    assert(a@.skip(0) =~= a@);
    assert(b@.skip(0) =~= b@);
    while i < a.len() && i < b.len()
        invariant
            a@ == string1@,
            b@ == string2@,
            i <= a@.len(),
            i <= b@.len(),
            collate_checked(a@, b@, 0) == collate_checked(
                a@.skip(i as int),
                b@.skip(i as int),
                i as nat,
            ),
        decreases a@.len() - i,
    {
        assert(a@.skip(i as int)[0] == a@[i as int]);
        assert(b@.skip(i as int)[0] == b@[i as int]);
        let r1 = match collation_rank(a[i]) {
            Some(k) => k,
            None => {
                return Err(CollationError::UnknownGrapheme { grapheme: a[i], position: i });
            },
        };
        let r2 = match collation_rank(b[i]) {
            Some(k) => k,
            None => {
                return Err(CollationError::UnknownGrapheme { grapheme: b[i], position: i });
            },
        };
        if r1 < r2 {
            return Ok(-1);
        } else if r1 > r2 {
            return Ok(1);
        }
        assert(a@.skip(i as int).skip(1) =~= a@.skip(i + 1));
        assert(b@.skip(i as int).skip(1) =~= b@.skip(i + 1));
        i = i + 1;
    }
    if a.len() < b.len() {
        Ok(-1)
    } else if a.len() > b.len() {
        Ok(1)
    } else {
        Ok(0)
    }
}

proof fn lemma_collate_antisymmetric(a: Seq<char>, b: Seq<char>)
    ensures
        collate(a, b) == -collate(b, a),
        -1 <= collate(a, b) <= 1,
    decreases a.len(),
{
    if a.len() > 0 && b.len() > 0 && rank_value(a[0]) == rank_value(b[0]) {
        lemma_collate_antisymmetric(a.skip(1), b.skip(1));
    }
}

proof fn lemma_collate_transitive(a: Seq<char>, b: Seq<char>, c: Seq<char>)
    requires
        collate(a, b) <= 0,
        collate(b, c) <= 0,
    ensures
        collate(a, c) <= 0,
        collate(a, b) < 0 || collate(b, c) < 0 ==> collate(a, c) < 0,
    decreases a.len(),
{
    if a.len() > 0 && b.len() > 0 && c.len() > 0 && rank_value(a[0]) == rank_value(b[0])
        && rank_value(b[0]) == rank_value(c[0]) {
        lemma_collate_transitive(a.skip(1), b.skip(1), c.skip(1));
    }
}

proof fn lemma_collate_equal(a: Seq<char>, b: Seq<char>)
    requires
        all_ranked(a),
        all_ranked(b),
    ensures
        collate(a, b) == 0 <==> a == b,
    decreases a.len(),
{
    if a.len() > 0 && b.len() > 0 {
        assert(rank_of(a[0]) is Some);
        assert(rank_of(b[0]) is Some);
        if rank_value(a[0]) == rank_value(b[0]) {
            lemma_rank_injective(a[0], b[0]);
            assert forall|i: int| 0 <= i < a.skip(1).len() implies (#[trigger] rank_of(
                a.skip(1)[i],
            )) is Some by {
                assert(rank_of(a[i + 1]) is Some);
            }
            assert forall|i: int| 0 <= i < b.skip(1).len() implies (#[trigger] rank_of(
                b.skip(1)[i],
            )) is Some by {
                assert(rank_of(b[i + 1]) is Some);
            }
            lemma_collate_equal(a.skip(1), b.skip(1));
            if a.skip(1) == b.skip(1) {
                assert(a =~= seq![a[0]] + a.skip(1));
                assert(b =~= seq![b[0]] + b.skip(1));
            }
        }
    } else if a.len() == 0 && b.len() == 0 {
        assert(a =~= b);
    }
}

/// The collation of canonical words is a strict total order: `collate` gives
/// -1, 0 or 1; 0 exactly on equal words; swapping the words negates it; and
/// "before" is transitive.
pub proof fn lemma_collation_total_order(a: Seq<char>, b: Seq<char>, c: Seq<char>)
    requires
        all_ranked(a),
        all_ranked(b),
        all_ranked(c),
    ensures
        collate(a, b) == -1 || collate(a, b) == 0 || collate(a, b) == 1,
        collate(a, b) == 0 <==> a == b,
        collate(a, b) == -collate(b, a),
        collate(a, b) == -1 && collate(b, c) == -1 ==> collate(a, c) == -1,
{
    lemma_collate_antisymmetric(a, b);
    lemma_collate_antisymmetric(a, c);
    lemma_collate_antisymmetric(b, c);
    lemma_collate_equal(a, b);
    if collate(a, b) == -1 && collate(b, c) == -1 {
        lemma_collate_transitive(a, b, c);
    }
}

pub open spec fn ordering_of(d: int) -> std::cmp::Ordering {
    if d < 0 {
        std::cmp::Ordering::Less
    } else if d > 0 {
        std::cmp::Ordering::Greater
    } else {
        std::cmp::Ordering::Equal
    }
}

/// The order of `compare` on fully ranked words: collation of the cased
/// canonical spellings.
pub open spec fn compare_spec(a: Seq<char>, b: Seq<char>) -> std::cmp::Ordering {
    ordering_of(collate(canonical(a, true), canonical(b, true)))
}

/// `compare` is a strict total order on words whose canonical spellings are
/// fully ranked: it is `Equal` exactly on words of the same canonical
/// spelling, swapping the words swaps `Less` and `Greater`, and `Less` is
/// transitive.
pub proof fn lemma_compare_total_order(a: Seq<char>, b: Seq<char>, c: Seq<char>)
    requires
        all_ranked(canonical(a, true)),
        all_ranked(canonical(b, true)),
        all_ranked(canonical(c, true)),
    ensures
        compare_spec(a, b) == std::cmp::Ordering::Equal <==> canonical(a, true) == canonical(b, true),
        compare_spec(a, b) == std::cmp::Ordering::Less <==> compare_spec(b, a) == std::cmp::Ordering::Greater,
        compare_spec(a, b) == std::cmp::Ordering::Less && compare_spec(b, c) == std::cmp::Ordering::Less
            ==> compare_spec(a, c) == std::cmp::Ordering::Less,
{
    lemma_collation_total_order(canonical(a, true), canonical(b, true), canonical(c, true));
    lemma_collation_total_order(canonical(b, true), canonical(c, true), canonical(a, true));
    lemma_collation_total_order(canonical(a, true), canonical(c, true), canonical(b, true));
}

/// Compares two words in the alphabet's order, through their cased canonical
/// spellings, index by index. Fails on the first unranked character met
/// before the words differ (at one index, `a`'s before `b`'s).
pub fn compare(a: &str, b: &str) -> (r: Result<std::cmp::Ordering, CollationError>)
    ensures
        r is Ok <==> collate_checked(canonical(a@, true), canonical(b@, true), 0) is Ok,
        r matches Ok(o) ==> collate_checked(canonical(a@, true), canonical(b@, true), 0) matches Ok(
            d,
        ) && o == ordering_of(d),
        r matches Err(e) ==> collate_checked(canonical(a@, true), canonical(b@, true), 0) == Err::<
            int,
            CollationError,
        >(e),
        all_ranked(canonical(a@, true)) && all_ranked(canonical(b@, true)) ==> r == Ok::<
            std::cmp::Ordering,
            CollationError,
        >(compare_spec(a@, b@)),
{
    let sa = string_of(&canonicalize_chars(&chars_of(a), true));
    let sb = string_of(&canonicalize_chars(&chars_of(b), true));
    proof {
        if all_ranked(sa@) && all_ranked(sb@) {
            lemma_collate_checked_ranked(sa@, sb@, 0);
        }
    }
    let d = usort(sa.as_str(), sb.as_str())?;
    if d < 0 {
        Ok(std::cmp::Ordering::Less)
    } else if d > 0 {
        Ok(std::cmp::Ordering::Greater)
    } else {
        Ok(std::cmp::Ordering::Equal)
    }
}

/// No word of `s` comes after a later one.
pub open spec fn sorted_words(s: Seq<Seq<char>>) -> bool {
    forall|i: int, j: int| 0 <= i < j < s.len() ==> collate(#[trigger] s[i], #[trigger] s[j]) <= 0
}

pub open spec fn words_ranked(s: Seq<Seq<char>>) -> bool {
    forall|i: int| 0 <= i < s.len() ==> all_ranked(#[trigger] s[i])
}

/// Sorts words already in canonical spelling; the result holds the same
/// words, in collation order.
pub fn sort_sortable(words: &Vec<String>) -> (r: Vec<String>)
    requires
        words_ranked(views(words@)),
    ensures
        views(r@).to_multiset() == views(words@).to_multiset(),
        sorted_words(views(r@)),
{
    let mut out: Vec<String> = Vec::new();
    let mut k: usize = 0;
    assert(views(out@) =~= views(words@.subrange(0, 0)));
    while k < words.len()
        invariant
            k <= words@.len(),
            words_ranked(views(words@)),
            words_ranked(views(out@)),
            sorted_words(views(out@)),
            views(out@).to_multiset() == views(words@.subrange(0, k as int)).to_multiset(),
        decreases words@.len() - k,
    {
        let w = words[k].clone();
        assert(all_ranked(views(words@)[k as int]));
        let mut p: usize = 0;
        while p < out.len()
            invariant
                p <= out@.len(),
                all_ranked(w@),
                words_ranked(views(out@)),
                forall|i: int| 0 <= i < p ==> collate(#[trigger] views(out@)[i], w@) <= 0,
            ensures
                p < out@.len() ==> collate(views(out@)[p as int], w@) > 0,
            decreases out@.len() - p,
        {
            assert(all_ranked(views(out@)[p as int]));
            proof {
                lemma_collate_checked_ranked(views(out@)[p as int], w@, 0);
            }
            let after = match usort(out[p].as_str(), w.as_str()) {
                Ok(d) => d > 0,
                Err(_) => false,
            };
            if after {
                break;
            }
            p = p + 1;
        }
        let ghost before = views(out@);
        out.insert(p, w);
        proof {
            assert(views(out@) =~= before.insert(p as int, w@));
            vstd::seq_lib::to_multiset_insert(before, p as int, w@);
            assert(views(words@.subrange(0, k + 1)) =~= views(words@.subrange(0, k as int)).push(
                w@,
            ));
            vstd::seq_lib::to_multiset_build(views(words@.subrange(0, k as int)), w@);
            assert forall|i: int, j: int| 0 <= i < j < views(out@).len() implies collate(
                #[trigger] views(out@)[i],
                #[trigger] views(out@)[j],
            ) <= 0 by {
                let s = views(out@);
                if j < p {
                    assert(s[i] == before[i] && s[j] == before[j]);
                } else if j == p {
                    assert(s[i] == before[i]);
                } else if i > p {
                    assert(s[i] == before[i - 1] && s[j] == before[j - 1]);
                } else if i == p {
                    assert(s[j] == before[j - 1]);
                    lemma_collate_antisymmetric(before[p as int], w@);
                    if j - 1 > p {
                        lemma_collate_transitive(w@, before[p as int], before[j - 1]);
                    }
                } else {
                    assert(s[i] == before[i] && s[j] == before[j - 1]);
                }
            }
        }
        k = k + 1;
    }
    assert(words@.subrange(0, words@.len() as int) =~= words@);
    out
}

pub open spec fn canonical_words(ws: Seq<Seq<char>>) -> Seq<Seq<char>> {
    ws.map_values(|w: Seq<char>| canonical(w, true))
}

pub open spec fn expanded_words(ws: Seq<Seq<char>>) -> Seq<Seq<char>> {
    ws.map_values(|w: Seq<char>| expanded(w, true))
}

/// `out` is `input` put in collation order: the canonical spellings of
/// `input`, sorted, each expanded back to ordinary spelling.
pub open spec fn sorted_arrangement(input: Seq<Seq<char>>, out: Seq<Seq<char>>) -> bool {
    exists|d: Seq<Seq<char>>|
        {
            &&& #[trigger] d.to_multiset() == canonical_words(input).to_multiset()
            &&& sorted_words(d)
            &&& out == expanded_words(d)
        }
}

/// The error for the first word whose canonical spelling has an unranked
/// character.
pub open spec fn first_unranked_word(input: Seq<Seq<char>>, e: CollationError) -> bool {
    exists|i: int|
        0 <= i < input.len() && first_unranked(canonical(#[trigger] input[i], true), e) && forall|
            j: int,
        |
            0 <= j < i ==> all_ranked(canonical(#[trigger] input[j], true))
}

/// Sorts words in collation order, in ordinary spelling (apostrophes after
/// `g` and `o` come out as `‘`).
pub fn sort_words(words: &Vec<String>) -> (r: Result<Vec<String>, CollationError>)
    ensures
        r is Ok <==> words_ranked(canonical_words(views(words@))),
        r matches Ok(out) ==> sorted_arrangement(views(words@), views(out@)),
        r matches Err(e) ==> first_unranked_word(views(words@), e),
{
    let mut canon: Vec<String> = Vec::new();
    let mut k: usize = 0;
    while k < words.len()
        invariant
            k <= words@.len(),
            views(canon@) == canonical_words(views(words@.subrange(0, k as int))),
            forall|j: int| 0 <= j < k ==> all_ranked(canonical(#[trigger] views(words@)[j], true)),
        decreases words@.len() - k,
    {
        let c = canonicalize_chars(&chars_of(words[k].as_str()), true);
        match check_ranked(&c) {
            Ok(()) => {},
            Err(e) => {
                assert(views(words@)[k as int] == words@[k as int]@);
                assert(canonical_words(views(words@))[k as int] == canonical(
                    views(words@)[k as int],
                    true,
                ));
                assert(first_unranked(canonical(views(words@)[k as int], true), e));
                return Err(e);
            },
        }
        let ghost before = views(canon@);
        canon.push(string_of(&c));
        assert(views(words@.subrange(0, k + 1)) =~= views(words@.subrange(0, k as int)).push(
            words@[k as int]@,
        ));
        assert(canonical_words(views(words@.subrange(0, k + 1))) =~= canonical_words(
            views(words@.subrange(0, k as int)),
        ).push(canonical(words@[k as int]@, true)));
        assert(views(canon@) =~= before.push(c@));
        k = k + 1;
    }
    assert(words@.subrange(0, words@.len() as int) =~= words@);
    assert forall|j: int| 0 <= j < views(canon@).len() implies all_ranked(
        #[trigger] views(canon@)[j],
    ) by {
        assert(views(canon@)[j] == canonical(views(words@)[j], true));
    }
    assert(canonical_words(views(words@)).len() == words@.len());
    assert forall|j: int| 0 <= j < words@.len() implies all_ranked(
        #[trigger] canonical_words(views(words@))[j],
    ) by {
        assert(views(canon@)[j] == canonical(views(words@)[j], true));
    }
    let sorted = sort_sortable(&canon);
    let mut out: Vec<String> = Vec::new();
    let mut i: usize = 0;
    while i < sorted.len()
        invariant
            i <= sorted@.len(),
            views(out@) == expanded_words(views(sorted@.subrange(0, i as int))),
        decreases sorted@.len() - i,
    {
        let e = expand_chars(&chars_of(sorted[i].as_str()), true);
        let ghost before = views(out@);
        out.push(string_of(&e));
        assert(views(sorted@.subrange(0, i + 1)) =~= views(sorted@.subrange(0, i as int)).push(
            sorted@[i as int]@,
        ));
        assert(expanded_words(views(sorted@.subrange(0, i + 1))) =~= expanded_words(
            views(sorted@.subrange(0, i as int)),
        ).push(expanded(sorted@[i as int]@, true)));
        assert(views(out@) =~= before.push(e@));
        i = i + 1;
    }
    assert(sorted@.subrange(0, sorted@.len() as int) =~= sorted@);
    assert(views(canon@) == canonical_words(views(words@)));
    assert(sorted_arrangement(views(words@), views(out@)));
    Ok(out)
}

/// The cased canonical spelling of `text`.
pub fn to_sortable(text: String) -> (r: String)
    ensures
        r@ == canonical(text@, true),
{
    string_of(&canonicalize_chars(&chars_of(text.as_str()), true))
}

/// `text` with every cased sentinel expanded back.
pub fn from_sortable(text: String) -> (r: String)
    ensures
        r@ == expanded(text@, true),
{
    string_of(&expand_chars(&chars_of(text.as_str()), true))
}

/// Each word followed by a newline.
pub open spec fn lines(ws: Seq<Seq<char>>) -> Seq<char>
    decreases ws.len(),
{
    if ws.len() == 0 {
        seq![]
    } else {
        lines(ws.drop_last()) + ws.last() + seq!['\n']
    }
}

/// Sorts the whitespace-separated words of `text` in collation order and
/// returns them one per line, each line ending in a newline.
pub fn sort(text: String) -> (r: Result<String, CollationError>)
    ensures
        r is Ok <==> words_ranked(canonical_words(words_of(text@))),
        r matches Ok(s) ==> exists|out: Seq<Seq<char>>|
            sorted_arrangement(words_of(text@), out) && s@ == lines(out),
        r matches Err(e) ==> first_unranked_word(words_of(text@), e),
{
    let words = split_whitespace(text.as_str());
    let sorted = sort_words(&words)?;
    let mut acc: Vec<char> = Vec::new();
    let mut i: usize = 0;
    while i < sorted.len()
        invariant
            i <= sorted@.len(),
            acc@ == lines(views(sorted@.subrange(0, i as int))),
        decreases sorted@.len() - i,
    {
        let w = chars_of(sorted[i].as_str());
        let mut j: usize = 0;
        let ghost start = acc@;
        while j < w.len()
            invariant
                j <= w@.len(),
                acc@ == start + w@.subrange(0, j as int),
            decreases w@.len() - j,
        {
            acc.push(w[j]);
            assert(start + w@.subrange(0, j + 1) =~= start + w@.subrange(0, j as int) + seq![w@[j as int]]);
            j = j + 1;
        }
        acc.push('\n');
        assert(views(sorted@.subrange(0, i + 1)).drop_last() =~= views(sorted@.subrange(0, i as int)));
        assert(w@.subrange(0, w@.len() as int) =~= w@);
        assert(acc@ =~= lines(views(sorted@.subrange(0, i as int))) + views(sorted@.subrange(0, i + 1)).last() + seq!['\n']);
        i = i + 1;
    }
    assert(sorted@.subrange(0, sorted@.len() as int) =~= sorted@);
    Ok(string_of(&acc))
}

} // verus!
