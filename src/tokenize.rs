//! Splitting Uzbek words into syllables, in Latin and Cyrillic spelling.
//!
//! A word is lower-cased and put in its lower-case canonical spelling, each
//! character is classified as vowel (`V`), consonant (`C`) or other, and a
//! table of rules over the next six classes decides how long each syllable is.
use vstd::prelude::*;
use crate::spelling::{canonical, canonicalize_chars, expanded, expand_chars, expansion};
use crate::text::{chars_of, is_space, string_of, trim, trim_end, trim_start, trimmed};

verus! {

/// What `str::to_lowercase` makes of a text.
pub uninterp spec fn lower_of(s: Seq<char>) -> Seq<char>;

/// Relies on `str::to_lowercase`: its result depends on the characters alone,
/// and an empty text stays empty.
#[verifier::external_body]
fn lowercase(s: &str) -> (r: String)
    ensures
        r@ == lower_of(s@),
        s@.len() == 0 ==> r@.len() == 0,
{
    s.to_lowercase()
}

/// Whether some character of the text has the Unicode script property Latin.
pub uninterp spec fn has_latin(s: Seq<char>) -> bool;

/// Whether some character of the text has the Unicode script property Cyrillic.
pub uninterp spec fn has_cyrillic(s: Seq<char>) -> bool;

/// Relies on `regex::Regex::is_match` with the pattern `\p{Latin}`, which is
/// valid, so `unwrap` cannot fail; no character means no match.
#[verifier::external_body]
fn contains_latin(s: &str) -> (r: bool)
    ensures
        r == has_latin(s@),
        s@.len() == 0 ==> !r,
{
    regex::Regex::new(r"\p{Latin}").unwrap().is_match(s)
}

/// Relies on `regex::Regex::is_match` with the pattern `\p{Cyrillic}`, which
/// is valid, so `unwrap` cannot fail; no character means no match.
#[verifier::external_body]
fn contains_cyrillic(s: &str) -> (r: bool)
    ensures
        r == has_cyrillic(s@),
        s@.len() == 0 ==> !r,
{
    regex::Regex::new(r"\p{Cyrillic}").unwrap().is_match(s)
}

/// The lower-case canonical spelling of `text`.
pub fn a_correct(text: &str) -> (r: String)
    ensures
        r@ == canonical(lower_of(text@), false),
        text@.len() == 0 ==> r@.len() == 0,
{
    let lowered = lowercase(text);
    string_of(&canonicalize_chars(&chars_of(lowered.as_str()), false))
}

/// `text` with every lower-case sentinel expanded back.
pub fn i_correct(text: &str) -> (r: String)
    ensures
        r@ == expanded(text@, false),
{
    string_of(&expand_chars(&chars_of(text), false))
}

/// The script whose letters a word is classified by.
#[derive(Debug, Clone, Copy, PartialEq, Eq, Structural)]
pub enum Script {
    Latin,
    Cyrillic,
    /// Neither script: every character is "other".
    Unknown,
}

/// A word with a Latin letter is read as Latin, else one with a Cyrillic
/// letter as Cyrillic.
pub open spec fn script_of(latin: bool, cyrillic: bool) -> Script {
    if latin {
        Script::Latin
    } else if cyrillic {
        Script::Cyrillic
    } else {
        Script::Unknown
    }
}

pub open spec fn is_vowel(c: char, script: Script) -> bool {
    match script {
        Script::Latin => c == 'a' || c == 'o' || c == 'u' || c == 'e' || c == 'i' || c == 'ŏ',
        Script::Cyrillic => c == 'а' || c == 'о' || c == 'у' || c == 'э' || c == 'и' || c == 'я'
            || c == 'ё' || c == 'ю' || c == 'е' || c == 'ў',
        Script::Unknown => false,
    }
}

pub open spec fn is_consonant(c: char, script: Script) -> bool {
    match script {
        Script::Latin => c == 'b' || c == 'd' || c == 'f' || c == 'g' || c == 'h' || c == 'j' || c
            == 'k' || c == 'l' || c == 'm' || c == 'n' || c == 'p' || c == 'q' || c == 'r' || c
            == 's' || c == 't' || c == 'v' || c == 'x' || c == 'y' || c == 'z' || c == 'ğ' || c
            == 'š' || c == 'č',
        Script::Cyrillic => c == 'б' || c == 'в' || c == 'г' || c == 'д' || c == 'ж' || c == 'з'
            || c == 'й' || c == 'к' || c == 'л' || c == 'м' || c == 'н' || c == 'п' || c == 'р'
            || c == 'с' || c == 'т' || c == 'ф' || c == 'х' || c == 'ц' || c == 'ч' || c == 'ш'
            || c == 'қ' || c == 'ғ' || c == 'ҳ',
        Script::Unknown => false,
    }
}

/// The class of `c`: `V` for a vowel, `C` for a consonant, `_` for anything else.
pub open spec fn class_of(c: char, script: Script) -> char {
    if is_vowel(c, script) {
        'V'
    } else if is_consonant(c, script) {
        'C'
    } else {
        '_'
    }
}

pub fn classify(c: char, script: Script) -> (r: char)
    ensures
        r == class_of(c, script),
{
    let vowel = match script {
        Script::Latin => c == 'a' || c == 'o' || c == 'u' || c == 'e' || c == 'i' || c == 'ŏ',
        Script::Cyrillic => c == 'а' || c == 'о' || c == 'у' || c == 'э' || c == 'и' || c == 'я'
            || c == 'ё' || c == 'ю' || c == 'е' || c == 'ў',
        Script::Unknown => false,
    };
    let consonant = match script {
        Script::Latin => c == 'b' || c == 'd' || c == 'f' || c == 'g' || c == 'h' || c == 'j' || c
            == 'k' || c == 'l' || c == 'm' || c == 'n' || c == 'p' || c == 'q' || c == 'r' || c
            == 's' || c == 't' || c == 'v' || c == 'x' || c == 'y' || c == 'z' || c == 'ğ' || c
            == 'š' || c == 'č',
        Script::Cyrillic => c == 'б' || c == 'в' || c == 'г' || c == 'д' || c == 'ж' || c == 'з'
            || c == 'й' || c == 'к' || c == 'л' || c == 'м' || c == 'н' || c == 'п' || c == 'р'
            || c == 'с' || c == 'т' || c == 'ф' || c == 'х' || c == 'ц' || c == 'ч' || c == 'ш'
            || c == 'қ' || c == 'ғ' || c == 'ҳ',
        Script::Unknown => false,
    };
    if vowel {
        'V'
    } else if consonant {
        'C'
    } else {
        '_'
    }
}

/// The classes of the characters of `w`, one for one.
pub open spec fn skeleton(w: Seq<char>, script: Script) -> Seq<char> {
    w.map_values(|c: char| class_of(c, script))
}

/// The class at `i`, or `n` past the end.
pub open spec fn letter_at(w: Seq<char>, i: int) -> char {
    if 0 <= i < w.len() {
        w[i]
    } else {
        'n'
    }
}

pub fn letter(word: &Vec<char>, i: usize) -> (r: char)
    ensures
        r == letter_at(word@, i as int),
{
    if i < word.len() {
        word[i]
    } else {
        'n'
    }
}

/// The length of the syllable that starts a word with classes `w`, by the
/// split rules (a later rule in the table takes precedence over an earlier
/// one, so they are tried here from the last); 0 where no rule applies.
pub open spec fn split_len(w: Seq<char>) -> usize {
    let l0 = letter_at(w, 0);
    let l1 = letter_at(w, 1);
    let l2 = letter_at(w, 2);
    let l3 = letter_at(w, 3);
    let l4 = letter_at(w, 4);
    let l5 = letter_at(w, 5);
    if l0 == 'C' && l1 == 'C' && l2 == 'V' && l3 == 'C' && l4 == 'C' && l5 != 'V' {
        5
    } else if l0 == 'C' && l1 == 'C' && l2 == 'V' && l3 == 'C' && l4 != 'V' && l5 != 'C' {
        4
    } else if (l0 == 'C' && l1 == 'C' && l2 == 'V' && l3 != 'C') || (l0 == 'C' && l1 == 'C' && l2
        == 'V' && l3 == 'C' && l4 == 'V') {
        3
    } else if l0 == 'C' && l1 == 'V' && l2 == 'C' && l3 == 'C' && l4 != 'V' {
        4
    } else if (l0 == 'C' && l1 == 'V' && l2 == 'C' && l3 == 'C' && l4 == 'V') || (l0 == 'C' && l1
        == 'V' && l2 == 'C' && l3 != 'C' && l3 != 'V') {
        3
    } else if (l0 == 'C' && l1 == 'V' && l2 != 'C') || (l0 == 'C' && l1 == 'V' && l2 == 'C' && l3
        == 'V') {
        2
    } else if l0 == 'V' && l1 == 'C' && l2 == 'C' && l3 != 'V' {
        3
    } else if l0 == 'V' && l1 == 'C' && l2 != 'V' && l3 != 'C' {
        2
    } else if (l0 == 'V' && l1 != 'C') || (l0 == 'V' && l1 == 'C' && l2 == 'V') {
        1
    } else {
        0
    }
}

/// A rule only counts characters that are there: `n` stands past the end.
proof fn lemma_split_len_fits(w: Seq<char>)
    ensures
        split_len(w) <= w.len(),
{
}

/// The length a split rule gives, or `No` where none applies.
#[derive(Debug, Clone, Copy, PartialEq, Eq, Structural)]
pub enum Split {
    One,
    Two,
    Three,
    Four,
    Five,
    No,
}

pub open spec fn split_value(s: Split) -> usize {
    match s {
        Split::One => 1,
        Split::Two => 2,
        Split::Three => 3,
        Split::Four => 4,
        Split::Five => 5,
        Split::No => 0,
    }
}

/// Applies the split rules, in order, to the classes at the start of `vector`.
pub fn get_split(vector: &Vec<char>) -> (r: Split)
    ensures
        split_value(r) == split_len(vector@),
{
    let l0 = letter(vector, 0);
    let l1 = letter(vector, 1);
    let l2 = letter(vector, 2);
    let l3 = letter(vector, 3);
    let l4 = letter(vector, 4);
    let l5 = letter(vector, 5);
    let mut result = Split::No;
    if (l0 == 'V' && l1 != 'C') || (l0 == 'V' && l1 == 'C' && l2 == 'V') {
        result = Split::One;
    }
    if l0 == 'V' && l1 == 'C' && l2 != 'V' && l3 != 'C' {
        result = Split::Two;
    }
    if l0 == 'V' && l1 == 'C' && l2 == 'C' && l3 != 'V' {
        result = Split::Three;
    }
    if (l0 == 'C' && l1 == 'V' && l2 != 'C') || (l0 == 'C' && l1 == 'V' && l2 == 'C' && l3 == 'V') {
        result = Split::Two;
    }
    if (l0 == 'C' && l1 == 'V' && l2 == 'C' && l3 == 'C' && l4 == 'V') || (l0 == 'C' && l1 == 'V'
        && l2 == 'C' && l3 != 'C' && l3 != 'V') {
        result = Split::Three;
    }
    if l0 == 'C' && l1 == 'V' && l2 == 'C' && l3 == 'C' && l4 != 'V' {
        result = Split::Four;
    }
    if (l0 == 'C' && l1 == 'C' && l2 == 'V' && l3 != 'C') || (l0 == 'C' && l1 == 'C' && l2 == 'V'
        && l3 == 'C' && l4 == 'V') {
        result = Split::Three;
    }
    if l0 == 'C' && l1 == 'C' && l2 == 'V' && l3 == 'C' && l4 != 'V' && l5 != 'C' {
        result = Split::Four;
    }
    if l0 == 'C' && l1 == 'C' && l2 == 'V' && l3 == 'C' && l4 == 'C' && l5 != 'V' {
        result = Split::Five;
    }
    result
}

/// The sum of the lengths in `m`.
pub open spec fn total(m: Seq<usize>) -> int
    decreases m.len(),
{
    if m.len() == 0 {
        0
    } else {
        total(m.drop_last()) + m.last()
    }
}

/// The syllable lengths of the rest `w` of a word, given those `acc` found
/// before it. Where no rule applies, one character is taken into the last
/// syllable found (or opens the first one), with no boundary before it.
pub open spec fn split_map_from(w: Seq<char>, acc: Seq<usize>) -> Seq<usize>
    decreases w.len(),
{
    if w.len() == 0 {
        acc
    } else {
        let k = split_len(w);
        if 1 <= k <= w.len() {
            split_map_from(w.skip(k as int), acc.push(k))
        } else if acc.len() == 0 {
            split_map_from(w.skip(1), seq![1])
        } else {
            split_map_from(w.skip(1), acc.update(acc.len() - 1, (acc.last() + 1) as usize))
        }
    }
}

/// The syllable lengths of a word with classes `w`.
pub open spec fn split_map(w: Seq<char>) -> Seq<usize> {
    split_map_from(w, seq![])
}

proof fn lemma_total_update_last(m: Seq<usize>, v: usize)
    requires
        m.len() > 0,
    ensures
        total(m.update(m.len() - 1, v)) == total(m) - m.last() + v,
{
    assert(m.update(m.len() - 1, v).drop_last() =~= m.drop_last());
}

/// The syllable lengths cover the word: they are positive and add up to its length.
pub proof fn lemma_split_map_covers(w: Seq<char>, acc: Seq<usize>)
    requires
        forall|i: int| 0 <= i < acc.len() ==> acc[i] >= 1,
        total(acc) + w.len() <= usize::MAX,
    ensures
        total(split_map_from(w, acc)) == total(acc) + w.len(),
        forall|i: int| 0 <= i < split_map_from(w, acc).len() ==> #[trigger] split_map_from(w, acc)[i] >= 1,
    decreases w.len(),
{
    if w.len() > 0 {
        let k = split_len(w);
        if 1 <= k <= w.len() {
            assert(acc.push(k).drop_last() =~= acc);
            lemma_split_map_covers(w.skip(k as int), acc.push(k));
        } else if acc.len() == 0 {
            assert(seq![1usize].drop_last() =~= Seq::<usize>::empty());
            lemma_total_one();
            lemma_split_map_covers(w.skip(1), seq![1]);
        } else {
            let a2 = acc.update(acc.len() - 1, (acc.last() + 1) as usize);
            lemma_total_nonneg_last(acc);
            lemma_total_update_last(acc, (acc.last() + 1) as usize);
            lemma_split_map_covers(w.skip(1), a2);
        }
    }
}

proof fn lemma_total_one()
    ensures
        total(seq![1usize]) == 1,
{
    assert(seq![1usize].drop_last() =~= Seq::<usize>::empty());
    reveal_with_fuel(total, 2);
}

proof fn lemma_total_nonneg_last(m: Seq<usize>)
    requires
        m.len() > 0,
    ensures
        total(m) >= m.last(),
    decreases m.len(),
{
    lemma_total_nonneg(m.drop_last());
}

proof fn lemma_total_nonneg(m: Seq<usize>)
    ensures
        total(m) >= 0,
    decreases m.len(),
{
    if m.len() > 0 {
        lemma_total_nonneg(m.drop_last());
    }
}

/// The syllable lengths of a word given by its classes (`V`, `C`, other).
pub fn create_map(word: &str) -> (r: Vec<usize>)
    ensures
        r@ == split_map(word@),
{
    let mut vector = chars_of(word);
    let mut text_map: Vec<usize> = Vec::new();
    let ghost whole = word@;
    let n = vector.len();
    while vector.len() > 0
        invariant
            split_map_from(vector@, text_map@) == split_map(whole),
            total(text_map@) + vector@.len() == whole.len(),
            whole.len() == n,
            forall|i: int| 0 <= i < text_map@.len() ==> text_map@[i] >= 1,
        decreases vector@.len(),
    {
        let k = split_value_of(get_split(&vector));
        proof {
            lemma_split_len_fits(vector@);
            lemma_total_nonneg(text_map@);
        }
        if k >= 1 {
            assert(text_map@.push(k).drop_last() =~= text_map@);
            text_map.push(k);
            vector = vector.split_off(k);
        } else if text_map.len() == 0 {
            text_map.push(1);
            assert(text_map@ =~= seq![1usize]);
            assert(text_map@.drop_last() =~= Seq::<usize>::empty());
            proof {
                lemma_total_one();
            }
            vector = vector.split_off(1);
        } else {
            let ghost before = text_map@;
            proof {
                lemma_total_nonneg_last(before);
                lemma_total_update_last(before, (before.last() + 1) as usize);
            }
            let last = text_map.pop().unwrap();
            text_map.push(last + 1);
            assert(text_map@ =~= before.update(before.len() - 1, (before.last() + 1) as usize));
            vector = vector.split_off(1);
        }
    }
    text_map
}

fn split_value_of(s: Split) -> (r: usize)
    ensures
        r == split_value(s),
{
    match s {
        Split::One => 1,
        Split::Two => 2,
        Split::Three => 3,
        Split::Four => 4,
        Split::Five => 5,
        Split::No => 0,
    }
}

/// The rest of a word after its first syllable: each further syllable of
/// `c`, with lengths `m`, preceded by a hyphen.
pub open spec fn tail_joined(c: Seq<char>, m: Seq<usize>) -> Seq<char>
    decreases m.len(),
{
    if m.len() == 0 {
        seq![]
    } else {
        seq!['-'] + c.take(m[0] as int) + tail_joined(c.skip(m[0] as int), m.skip(1))
    }
}

/// The syllables of `c`, with lengths `m`, separated by hyphens.
pub open spec fn joined(c: Seq<char>, m: Seq<usize>) -> Seq<char> {
    if m.len() == 0 {
        seq![]
    } else {
        c.take(m[0] as int) + tail_joined(c.skip(m[0] as int), m.skip(1))
    }
}

/// Whole words whose syllables the rules get wrong, by their lower-case
/// canonical spelling, with their syllables.
pub open spec fn exception_of(c: Seq<char>, script: Script) -> Option<Seq<char>> {
    if script == Script::Latin {
        if c == "singil"@ {
            Some("si-ngil"@)
        } else if c == "dengiz"@ {
            Some("de-ngiz"@)
        } else if c == "pešayvon"@ {
            Some("pe-shayvon"@)
        } else if c == "pešona"@ {
            Some("pe-shona"@)
        } else if c == "maishat"@ {
            Some("mai-shat"@)
        } else if c == "išingizni"@ {
            Some("ishi-ngiz-ni"@)
        } else if c == "išingizda"@ {
            Some("ishi-ngiz-da"@)
        } else {
            None
        }
    } else {
        None
    }
}

/// The hyphenated syllables of a word in lower-case canonical spelling,
/// expanded back to ordinary spelling.
pub open spec fn syllabified(c: Seq<char>, script: Script) -> Seq<char> {
    match exception_of(c, script) {
        Some(v) => expanded(v, false),
        None => expanded(joined(c, split_map(skeleton(c, script))), false),
    }
}

fn same_chars(a: &Vec<char>, b: &str) -> (r: bool)
    ensures
        r == (a@ == b@),
{
    let bs = chars_of(b);
    if a.len() != bs.len() {
        return false;
    }
    let mut i: usize = 0;
    while i < a.len()
        invariant
            bs@ == b@,
            a@.len() == bs@.len(),
            i <= a@.len(),
            forall|j: int| 0 <= j < i ==> a@[j] == bs@[j],
        decreases a@.len() - i,
    {
        if a[i] != bs[i] {
            return false;
        }
        i = i + 1;
    }
    assert(a@ =~= bs@);
    true
}

fn exception(c: &Vec<char>, script: Script) -> (r: Option<Vec<char>>)
    ensures
        r matches Some(v) ==> exception_of(c@, script) == Some(v@),
        r is None ==> exception_of(c@, script) is None,
{
    if script != Script::Latin {
        return None;
    }
    if same_chars(c, "singil") {
        Some(chars_of("si-ngil"))
    } else if same_chars(c, "dengiz") {
        Some(chars_of("de-ngiz"))
    } else if same_chars(c, "pešayvon") {
        Some(chars_of("pe-shayvon"))
    } else if same_chars(c, "pešona") {
        Some(chars_of("pe-shona"))
    } else if same_chars(c, "maishat") {
        Some(chars_of("mai-shat"))
    } else if same_chars(c, "išingizni") {
        Some(chars_of("ishi-ngiz-ni"))
    } else if same_chars(c, "išingizda") {
        Some(chars_of("ishi-ngiz-da"))
    } else {
        None
    }
}

/// The classes of the characters of `w`.
pub fn classes(w: &Vec<char>, script: Script) -> (r: Vec<char>)
    ensures
        r@ == skeleton(w@, script),
{
    let mut out: Vec<char> = Vec::new();
    let mut i: usize = 0;
    while i < w.len()
        invariant
            i <= w@.len(),
            out@ =~= skeleton(w@.subrange(0, i as int), script),
        decreases w@.len() - i,
    {
        out.push(classify(w[i], script));
        i = i + 1;
    }
    assert(w@.subrange(0, w@.len() as int) =~= w@);
    out
}

/// Puts hyphens between the syllables of `c` whose lengths are `m`.
fn join_syllables(c: &Vec<char>, m: &Vec<usize>) -> (r: Vec<char>)
    requires
        total(m@) == c@.len(),
        forall|i: int| 0 <= i < m@.len() ==> m@[i] >= 1,
    ensures
        r@ == joined(c@, m@),
{
    let mut out: Vec<char> = Vec::new();
    if m.len() == 0 {
        return out;
    }
    let n = c.len();
    let mut pos: usize = 0;
    let mut i: usize = 0;
    proof {
        lemma_total_prefix(m@, 0);
    }
    while i < m.len()
        invariant
            i <= m@.len(),
            pos == total(m@.subrange(0, i as int)),
            total(m@) == c@.len(),
            n == c@.len(),
            m@.len() > 0,
            forall|j: int| 0 <= j < m@.len() ==> m@[j] >= 1,
            i == 0 ==> out@.len() == 0,
            i > 0 ==> joined(c@, m@) == out@ + tail_joined(c@.skip(pos as int), m@.skip(i as int)),
        decreases m@.len() - i,
    {
        proof {
            lemma_total_prefix(m@, i as int + 1);
            lemma_total_prefix(m@, i as int);
            assert(m@.subrange(0, i + 1).drop_last() =~= m@.subrange(0, i as int));
        }
        let k = m[i];
        let ghost start = out@;
        let ghost rest = c@.skip(pos as int);
        if i > 0 {
            out.push('-');
        }
        let mut j: usize = 0;
        while j < k
            invariant
                j <= k,
                pos + k <= c@.len(),
                n == c@.len(),
                i > 0 ==> out@ == start + seq!['-'] + c@.subrange(pos as int, pos + j),
                i == 0 ==> out@ == c@.subrange(pos as int, pos + j),
                i == 0 ==> start.len() == 0,
            decreases k - j,
        {
            out.push(c[pos + j]);
            assert(c@.subrange(pos as int, pos + j + 1) =~= c@.subrange(pos as int, pos + j).push(
                c@[pos + j],
            ));
            j = j + 1;
        }
        assert(rest.take(k as int) =~= c@.subrange(pos as int, pos + k));
        assert(rest.skip(k as int) =~= c@.skip(pos + k));
        assert(m@.skip(i as int).skip(1) =~= m@.skip(i + 1));
        assert(m@.skip(i as int)[0] == k);
        if i == 0 {
            assert(c@.skip(0) =~= c@);
            assert(m@.skip(0) =~= m@);
        } else {
            assert(out@ + tail_joined(c@.skip(pos + k), m@.skip(i + 1)) =~= start + tail_joined(
                rest,
                m@.skip(i as int),
            ));
        }
        pos = pos + k;
        i = i + 1;
    }
    assert(m@.subrange(0, m@.len() as int) =~= m@);
    assert(c@.skip(pos as int).len() == 0);
    assert(m@.skip(i as int).len() == 0);
    assert(out@ + tail_joined(c@.skip(pos as int), m@.skip(i as int)) =~= out@);
    out
}

proof fn lemma_total_prefix(m: Seq<usize>, i: int)
    requires
        0 <= i <= m.len(),
        forall|j: int| 0 <= j < m.len() ==> m[j] >= 1,
    ensures
        0 <= total(m.subrange(0, i)) <= total(m),
        i < m.len() ==> total(m.subrange(0, i)) + m[i] <= total(m),
    decreases m.len() - i,
{
    if i < m.len() {
        lemma_total_prefix(m, i + 1);
        assert(m.subrange(0, i + 1).drop_last() =~= m.subrange(0, i));
    } else {
        assert(m.subrange(0, i) =~= m);
    }
    lemma_total_nonneg(m.subrange(0, i));
}

/// Splits a word already lower-cased, trimmed and in lower-case canonical
/// spelling into syllables, reading its letters in `script`, and returns them
/// hyphenated in ordinary spelling.
pub fn syllabify_canonical(word: &str, script: Script) -> (r: String)
    ensures
        r@ == syllabified(word@, script),
{
    let c = chars_of(word);
    match exception(&c, script) {
        Some(v) => {
            return string_of(&expand_chars(&v, false));
        },
        None => {},
    }
    let sk = classes(&c, script);
    let m = create_map(string_of(&sk).as_str());
    assert(total(Seq::<usize>::empty()) == 0);
    assert(sk@.len() == sk.len());
    proof {
        lemma_split_map_covers(sk@, seq![]);
    }
    let j = join_syllables(&c, &m);
    string_of(&expand_chars(&j, false))
}

/// The text that `split_word` splits: lower-cased, in lower-case canonical
/// spelling, trimmed.
pub open spec fn prepared(word: Seq<char>) -> Seq<char> {
    trimmed(canonical(lower_of(word), false))
}

/// Splits a word into syllables separated by hyphens. The word is read as
/// Latin if it has a Latin letter, else as Cyrillic if it has a Cyrillic one.
pub fn split_word(word: &str) -> (r: String)
    ensures
        r@ == syllabified(
            prepared(word@),
            script_of(has_latin(prepared(word@)), has_cyrillic(prepared(word@))),
        ),
        word@.len() == 0 ==> r@.len() == 0,
{
    let corrected = a_correct(word);
    let t = string_of(&trim(&chars_of(corrected.as_str())));
    let script = if contains_latin(t.as_str()) {
        Script::Latin
    } else if contains_cyrillic(t.as_str()) {
        Script::Cyrillic
    } else {
        Script::Unknown
    };
    proof {
        if word@.len() == 0 {
            assert(trimmed(corrected@) =~= Seq::<char>::empty());
            lemma_syllabified_empty(script);
        }
    }
    syllabify_canonical(t.as_str(), script)
}

/// An empty word has no syllables.
proof fn lemma_syllabified_empty(script: Script)
    ensures
        syllabified(Seq::<char>::empty(), script).len() == 0,
{
    reveal_strlit("singil");
    reveal_strlit("dengiz");
    reveal_strlit("pešayvon");
    reveal_strlit("pešona");
    reveal_strlit("maishat");
    reveal_strlit("išingizni");
    reveal_strlit("išingizda");
    let e = Seq::<char>::empty();
    assert(skeleton(e, script) =~= e);
    assert(split_map(e) =~= Seq::<usize>::empty());
    assert(joined(e, Seq::<usize>::empty()) =~= e);
}

/// `s` without its hyphens.
pub open spec fn unhyphenated(s: Seq<char>) -> Seq<char>
    decreases s.len(),
{
    if s.len() == 0 {
        seq![]
    } else if s.last() == '-' {
        unhyphenated(s.drop_last())
    } else {
        unhyphenated(s.drop_last()).push(s.last())
    }
}

proof fn lemma_unhyphenated_concat(a: Seq<char>, b: Seq<char>)
    ensures
        unhyphenated(a + b) == unhyphenated(a) + unhyphenated(b),
    decreases b.len(),
{
    if b.len() == 0 {
        assert(a + b =~= a);
        assert(unhyphenated(a) + unhyphenated(b) =~= unhyphenated(a));
    } else {
        assert((a + b).drop_last() =~= a + b.drop_last());
        lemma_unhyphenated_concat(a, b.drop_last());
        assert(unhyphenated(a + b) =~= unhyphenated(a) + unhyphenated(b));
    }
}

proof fn lemma_unhyphenated_hyphen()
    ensures
        unhyphenated(seq!['-']) == Seq::<char>::empty(),
{
    assert(seq!['-'].drop_last() =~= Seq::<char>::empty());
    reveal_with_fuel(unhyphenated, 2);
    assert(unhyphenated(seq!['-']) =~= Seq::<char>::empty());
}

proof fn lemma_unhyphenated_plain(s: Seq<char>)
    requires
        forall|i: int| 0 <= i < s.len() ==> s[i] != '-',
    ensures
        unhyphenated(s) == s,
    decreases s.len(),
{
    if s.len() > 0 {
        lemma_unhyphenated_plain(s.drop_last());
        assert(s.drop_last().push(s.last()) =~= s);
    }
}

proof fn lemma_unhyphenated_expanded(s: Seq<char>)
    ensures
        unhyphenated(expanded(s, false)) == expanded(unhyphenated(s), false),
    decreases s.len(),
{
    if s.len() > 0 {
        let c = s.last();
        lemma_unhyphenated_expanded(s.drop_last());
        lemma_unhyphenated_concat(expanded(s.drop_last(), false), expansion(c, false));
        if c == '-' {
            lemma_unhyphenated_hyphen();
            assert(expanded(unhyphenated(s), false) =~= expanded(unhyphenated(s), false) + unhyphenated(expansion(c, false)));
        } else {
            lemma_unhyphenated_plain(expansion(c, false));
            let u = unhyphenated(s.drop_last());
            assert(unhyphenated(s) == u.push(c));
            assert(u.push(c).drop_last() =~= u);
        }
    }
}

proof fn lemma_total_front(m: Seq<usize>)
    requires
        m.len() > 0,
    ensures
        total(m) == m[0] + total(m.skip(1)),
    decreases m.len(),
{
    if m.len() > 1 {
        lemma_total_front(m.drop_last());
        assert(m.drop_last().skip(1) =~= m.skip(1).drop_last());
    } else {
        assert(m.skip(1) =~= Seq::<usize>::empty());
        assert(m.drop_last() =~= Seq::<usize>::empty());
    }
}

proof fn lemma_tail_joined_letters(c: Seq<char>, m: Seq<usize>)
    requires
        total(m) == c.len(),
        forall|i: int| 0 <= i < m.len() ==> m[i] >= 1,
    ensures
        unhyphenated(tail_joined(c, m)) == unhyphenated(c),
    decreases m.len(),
{
    if m.len() == 0 {
        assert(c =~= Seq::<char>::empty());
    } else {
        lemma_total_front(m);
        lemma_total_nonneg(m.skip(1));
        let k = m[0] as int;
        lemma_tail_joined_letters(c.skip(k), m.skip(1));
        lemma_unhyphenated_concat(seq!['-'] + c.take(k), tail_joined(c.skip(k), m.skip(1)));
        lemma_unhyphenated_concat(seq!['-'], c.take(k));
        lemma_unhyphenated_concat(c.take(k), c.skip(k));
        assert(c.take(k) + c.skip(k) =~= c);
        lemma_unhyphenated_hyphen();
    }
}

proof fn lemma_joined_letters(c: Seq<char>, m: Seq<usize>)
    requires
        total(m) == c.len(),
        forall|i: int| 0 <= i < m.len() ==> m[i] >= 1,
    ensures
        unhyphenated(joined(c, m)) == unhyphenated(c),
{
    if m.len() == 0 {
        assert(c =~= Seq::<char>::empty());
    } else {
        lemma_total_front(m);
        lemma_total_nonneg(m.skip(1));
        let k = m[0] as int;
        lemma_tail_joined_letters(c.skip(k), m.skip(1));
        lemma_unhyphenated_concat(c.take(k), tail_joined(c.skip(k), m.skip(1)));
        lemma_unhyphenated_concat(c.take(k), c.skip(k));
        assert(c.take(k) + c.skip(k) =~= c);
    }
}

proof fn lemma_canonical_plain(s: Seq<char>)
    requires
        forall|i: int| 0 <= i < s.len() ==> s[i] != '-' && !is_space(s[i]),
    ensures
        canonical(s, false).len() <= s.len(),
        forall|j: int|
            0 <= j < canonical(s, false).len() ==> canonical(s, false)[j] != '-' && !is_space(
                #[trigger] canonical(s, false)[j],
            ),
    decreases s.len(),
{
    if s.len() > 0 {
        let k: int = if s.len() >= 2 && crate::spelling::pair_sentinel(s[0], s[1], false) is Some {
            2
        } else {
            1
        };
        let rest = s.skip(k);
        assert forall|i: int| 0 <= i < rest.len() implies rest[i] != '-' && !is_space(rest[i]) by {
            assert(rest[i] == s[i + k]);
        }
        lemma_canonical_plain(rest);
        assert(s[0] != '-' && !is_space(s[0]));
        let c = canonical(s, false);
        let cr = canonical(rest, false);
        assert(c.len() == cr.len() + 1);
        assert forall|j: int| 0 <= j < c.len() implies c[j] != '-' && !is_space(#[trigger] c[j]) by {
            if j > 0 {
                assert(c[j] == cr[j - 1]);
            }
        }
    }
}

proof fn lemma_expanded_plain(x: Seq<char>)
    requires
        forall|i: int| 0 <= i < x.len() ==> x[i] != 'ğ' && x[i] != 'ŏ' && x[i] != 'š' && x[i] != 'č',
    ensures
        expanded(x, false) == x,
    decreases x.len(),
{
    if x.len() > 0 {
        lemma_expanded_plain(x.drop_last());
        assert(x.drop_last() + seq![x.last()] =~= x);
    }
}

/// Expanding `a š b` spells the `š` out as `sh`; `a sh b` has nothing to expand.
proof fn lemma_digraph_spelled_out(a: Seq<char>, b: Seq<char>)
    requires
        forall|i: int| 0 <= i < a.len() ==> a[i] != 'ğ' && a[i] != 'ŏ' && a[i] != 'š' && a[i] != 'č',
        forall|i: int| 0 <= i < b.len() ==> b[i] != 'ğ' && b[i] != 'ŏ' && b[i] != 'š' && b[i] != 'č',
    ensures
        expanded(a + seq!['š'] + b, false) == a + seq!['s', 'h'] + b,
        expanded(a + seq!['s', 'h'] + b, false) == a + seq!['s', 'h'] + b,
{
    crate::spelling::lemma_expanded_concat(a + seq!['š'], b, false);
    crate::spelling::lemma_expanded_concat(a, seq!['š'], false);
    lemma_expanded_plain(a);
    lemma_expanded_plain(b);
    assert(seq!['š'].drop_last() =~= Seq::<char>::empty());
    reveal_with_fuel(expanded, 2);
    assert(expanded(seq!['š'], false) =~= seq!['s', 'h']);
    lemma_expanded_plain(a + seq!['s', 'h'] + b);
}

/// Without the hyphen, `a-b` is `a b`.
proof fn lemma_unhyphenated_two(a: Seq<char>, b: Seq<char>)
    requires
        forall|i: int| 0 <= i < a.len() ==> a[i] != '-',
        forall|i: int| 0 <= i < b.len() ==> b[i] != '-',
    ensures
        unhyphenated(a + seq!['-'] + b) == a + b,
{
    lemma_unhyphenated_concat(a + seq!['-'], b);
    lemma_unhyphenated_concat(a, seq!['-']);
    lemma_unhyphenated_hyphen();
    lemma_unhyphenated_plain(a);
    lemma_unhyphenated_plain(b);
    assert(a + Seq::<char>::empty() =~= a);
}

/// Each exception lists the letters of its word: without hyphens, its
/// syllables spell the word again.
proof fn lemma_exceptions_keep_letters(c: Seq<char>)
    requires
        exception_of(c, Script::Latin) is Some,
    ensures
        expanded(unhyphenated(exception_of(c, Script::Latin).unwrap()), false) == expanded(c, false),
{
    let v = exception_of(c, Script::Latin).unwrap();
    if c == "singil"@ {
        reveal_strlit("singil");
        reveal_strlit("si-ngil");
        assert(v =~= seq!['s', 'i'] + seq!['-'] + seq!['n', 'g', 'i', 'l']);
        lemma_unhyphenated_two(seq!['s', 'i'], seq!['n', 'g', 'i', 'l']);
        assert(unhyphenated(v) =~= c);
    } else if c == "dengiz"@ {
        reveal_strlit("dengiz");
        reveal_strlit("de-ngiz");
        assert(v =~= seq!['d', 'e'] + seq!['-'] + seq!['n', 'g', 'i', 'z']);
        lemma_unhyphenated_two(seq!['d', 'e'], seq!['n', 'g', 'i', 'z']);
        assert(unhyphenated(v) =~= c);
    } else if c == "pešayvon"@ {
        reveal_strlit("pešayvon");
        reveal_strlit("pe-shayvon");
        assert(v =~= seq!['p', 'e'] + seq!['-'] + seq!['s', 'h', 'a', 'y', 'v', 'o', 'n']);
        lemma_unhyphenated_two(seq!['p', 'e'], seq!['s', 'h', 'a', 'y', 'v', 'o', 'n']);
        let a = seq!['p', 'e'];
        let b = seq!['a', 'y', 'v', 'o', 'n'];
        assert(c =~= a + seq!['š'] + b);
        assert(unhyphenated(v) =~= a + seq!['s', 'h'] + b);
        lemma_digraph_spelled_out(a, b);
    } else if c == "pešona"@ {
        reveal_strlit("pešona");
        reveal_strlit("pe-shona");
        assert(v =~= seq!['p', 'e'] + seq!['-'] + seq!['s', 'h', 'o', 'n', 'a']);
        lemma_unhyphenated_two(seq!['p', 'e'], seq!['s', 'h', 'o', 'n', 'a']);
        let a = seq!['p', 'e'];
        let b = seq!['o', 'n', 'a'];
        assert(c =~= a + seq!['š'] + b);
        assert(unhyphenated(v) =~= a + seq!['s', 'h'] + b);
        lemma_digraph_spelled_out(a, b);
    } else if c == "maishat"@ {
        reveal_strlit("maishat");
        reveal_strlit("mai-shat");
        assert(v =~= seq!['m', 'a', 'i'] + seq!['-'] + seq!['s', 'h', 'a', 't']);
        lemma_unhyphenated_two(seq!['m', 'a', 'i'], seq!['s', 'h', 'a', 't']);
        assert(unhyphenated(v) =~= c);
    } else if c == "išingizni"@ {
        reveal_strlit("išingizni");
        reveal_strlit("ishi-ngiz-ni");
        let p1 = seq!['i', 's', 'h', 'i'];
        let p2 = seq!['n', 'g', 'i', 'z'];
        assert(v =~= p1 + seq!['-'] + (p2 + seq!['-'] + seq!['n', 'i']));
        lemma_unhyphenated_two(p2, seq!['n', 'i']);
        lemma_unhyphenated_concat(p1 + seq!['-'], p2 + seq!['-'] + seq!['n', 'i']);
        lemma_unhyphenated_two(p1, Seq::<char>::empty());
        assert(p1 + seq!['-'] =~= p1 + seq!['-'] + Seq::<char>::empty());
        assert(p1 + Seq::<char>::empty() =~= p1);
        let a = seq!['i'];
        let b = seq!['i', 'n', 'g', 'i', 'z', 'n', 'i'];
        assert(c =~= a + seq!['š'] + b);
        assert(unhyphenated(v) =~= a + seq!['s', 'h'] + b);
        lemma_digraph_spelled_out(a, b);
    } else {
        reveal_strlit("išingizda");
        reveal_strlit("ishi-ngiz-da");
        let p1 = seq!['i', 's', 'h', 'i'];
        let p2 = seq!['n', 'g', 'i', 'z'];
        assert(v =~= p1 + seq!['-'] + (p2 + seq!['-'] + seq!['d', 'a']));
        lemma_unhyphenated_two(p2, seq!['d', 'a']);
        lemma_unhyphenated_concat(p1 + seq!['-'], p2 + seq!['-'] + seq!['d', 'a']);
        lemma_unhyphenated_two(p1, Seq::<char>::empty());
        assert(p1 + seq!['-'] =~= p1 + seq!['-'] + Seq::<char>::empty());
        assert(p1 + Seq::<char>::empty() =~= p1);
        let a = seq!['i'];
        let b = seq!['i', 'n', 'g', 'i', 'z', 'd', 'a'];
        assert(c =~= a + seq!['š'] + b);
        assert(unhyphenated(v) =~= a + seq!['s', 'h'] + b);
        lemma_digraph_spelled_out(a, b);
    }
}

/// For a word (no whitespace, no hyphen) that lower-casing leaves as it is
/// and that is spelled canonically (none of `ğ ŏ š č`, `‘` as the apostrophe
/// after `g` and `o`, `ʼ` as any other), `split_word`
/// only adds hyphens: removing them gives the word back.
pub proof fn lemma_syllables_keep_letters(w: Seq<char>)
    requires
        w.len() <= usize::MAX,
        lower_of(w) == w,
        crate::spelling::canonically_spelled(w, false),
        forall|i: int| 0 <= i < w.len() ==> w[i] != '-' && !is_space(w[i]),
    ensures
        unhyphenated(
            syllabified(
                prepared(w),
                script_of(has_latin(prepared(w)), has_cyrillic(prepared(w))),
            ),
        ) == w,
{
    let c = canonical(w, false);
    crate::spelling::lemma_round_trip(w, false);
    lemma_canonical_plain(w);
    if c.len() > 0 {
        assert(!is_space(c[0]));
        assert(!is_space(c.last()));
    }
    assert(trim_start(c) == c);
    assert(trim_end(c) == c);
    assert(prepared(w) == c);
    let script = script_of(has_latin(c), has_cyrillic(c));
    match exception_of(c, script) {
        Some(v) => {
            lemma_unhyphenated_expanded(v);
            lemma_exceptions_keep_letters(c);
        },
        None => {
            let m = split_map(skeleton(c, script));
            assert(total(Seq::<usize>::empty()) == 0);
            lemma_split_map_covers(skeleton(c, script), seq![]);
            lemma_joined_letters(c, m);
            lemma_unhyphenated_plain(c);
            lemma_unhyphenated_expanded(joined(c, m));
        },
    }
}

} // verus!
