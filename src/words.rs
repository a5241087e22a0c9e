//! Whole-text utilities over whitespace-separated words: removing repeated
//! words and counting them.
use vstd::prelude::*;
use std::collections::HashMap;
use itertools::Itertools;
use crate::text::{chars_of, split_whitespace, string_of, views, words_of};

verus! {

/// Whether the text has a character of the Latin or Cyrillic script, a digit,
/// `|`, `-` or `_`.
pub uninterp spec fn has_word_char(s: Seq<char>) -> bool;

/// Relies on `regex::Regex::is_match` with the class
/// `[\p{Cyrillic}|\p{Latin}|0-9|\-_]`, which is valid, so `unwrap` cannot
/// fail; no character means no match.
#[verifier::external_body]
fn contains_word_char(s: &str) -> (r: bool)
    ensures
        r == has_word_char(s@),
        s@.len() == 0 ==> !r,
{
    regex::Regex::new(r"[\p{Cyrillic}|\p{Latin}|0-9|\-_]").unwrap().is_match(s)
}

/// Each word of `ws` at its first occurrence, in order.
pub open spec fn first_occurrences(ws: Seq<Seq<char>>) -> Seq<Seq<char>>
    decreases ws.len(),
{
    if ws.len() == 0 {
        seq![]
    } else if ws.drop_last().contains(ws.last()) {
        first_occurrences(ws.drop_last())
    } else {
        first_occurrences(ws.drop_last()).push(ws.last())
    }
}

/// Relies on `itertools::Itertools::unique`: it yields each element the
/// first time it occurs and drops later equal ones, keeping their order.
#[verifier::external_body]
fn unique_words(ws: Vec<String>) -> (r: Vec<String>)
    ensures
        views(r@) == first_occurrences(views(ws@)),
{
    ws.into_iter().unique().collect()
}

/// Relies on `itertools::Itertools::counts`: a map from each element that
/// occurs to the number of its occurrences.
#[verifier::external_body]
fn count_words(ws: Vec<String>) -> (r: HashMap<String, usize>)
    ensures
        forall|k: String| #[trigger] r@.contains_key(k) <==> views(ws@).contains(k@),
        forall|k: String|
            #[trigger] r@.contains_key(k) ==> r@[k] == views(ws@).to_multiset().count(k@),
{
    ws.into_iter().counts()
}

/// The words of `ws` separated by single spaces.
pub open spec fn spaced(ws: Seq<Seq<char>>) -> Seq<char>
    decreases ws.len(),
{
    if ws.len() == 0 {
        seq![]
    } else if ws.len() == 1 {
        ws[0]
    } else {
        spaced(ws.drop_last()) + seq![' '] + ws.last()
    }
}

fn join_spaced(ws: &Vec<String>) -> (r: String)
    ensures
        r@ == spaced(views(ws@)),
{
    let mut acc: Vec<char> = Vec::new();
    let mut i: usize = 0;
    while i < ws.len()
        invariant
            i <= ws@.len(),
            acc@ == spaced(views(ws@.subrange(0, i as int))),
        decreases ws@.len() - i,
    {
        let w = chars_of(ws[i].as_str());
        let ghost start = acc@;
        if i > 0 {
            acc.push(' ');
        }
        let mut j: usize = 0;
        while j < w.len()
            invariant
                j <= w@.len(),
                i > 0 ==> acc@ == start + seq![' '] + w@.subrange(0, j as int),
                i == 0 ==> acc@ == start + w@.subrange(0, j as int),
            decreases w@.len() - j,
        {
            acc.push(w[j]);
            assert(w@.subrange(0, j + 1) =~= w@.subrange(0, j as int).push(w@[j as int]));
            j = j + 1;
        }
        let ghost next = views(ws@.subrange(0, i + 1));
        assert(next.drop_last() =~= views(ws@.subrange(0, i as int)));
        assert(w@.subrange(0, w@.len() as int) =~= w@);
        if i == 0 {
            assert(start.len() == 0);
            assert(acc@ =~= next[0]);
        } else {
            assert(acc@ =~= spaced(next.drop_last()) + seq![' '] + next.last());
        }
        i = i + 1;
    }
    assert(ws@.subrange(0, ws@.len() as int) =~= ws@);
    string_of(&acc)
}

/// `text` with each word kept at its first occurrence only, the words
/// separated by single spaces; a text with no character of the Latin or
/// Cyrillic script, digit, `|`, `-` or `_` comes back as it is.
pub fn remove(text: &str) -> (r: String)
    ensures
        r@ == if has_word_char(text@) {
            spaced(first_occurrences(words_of(text@)))
        } else {
            text@
        },
{
    if contains_word_char(text) {
        let kept = unique_words(split_whitespace(text));
        join_spaced(&kept)
    } else {
        string_of(&chars_of(text))
    }
}

/// As `remove`, on an owned text.
pub fn remove_duplicates(text: String) -> (r: String)
    ensures
        r@ == if has_word_char(text@) {
            spaced(first_occurrences(words_of(text@)))
        } else {
            text@
        },
{
    remove(text.as_str())
}

/// Each word of `text` with the number of its occurrences; empty for a text
/// with no character of the Latin or Cyrillic script, digit, `|`, `-` or `_`.
pub fn count(text: &str) -> (r: HashMap<String, usize>)
    ensures
        has_word_char(text@) ==> forall|k: String| #[trigger]
            r@.contains_key(k) <==> words_of(text@).contains(k@),
        has_word_char(text@) ==> forall|k: String| #[trigger]
            r@.contains_key(k) ==> r@[k] == words_of(text@).to_multiset().count(k@),
        !has_word_char(text@) ==> r@ == Map::<String, usize>::empty(),
{
    if contains_word_char(text) {
        count_words(split_whitespace(text))
    } else {
        HashMap::new()
    }
}

/// As `count`, on an owned text.
pub fn word_frequency(text: String) -> (r: HashMap<String, usize>)
    ensures
        has_word_char(text@) ==> forall|k: String| #[trigger]
            r@.contains_key(k) <==> words_of(text@).contains(k@),
        has_word_char(text@) ==> forall|k: String| #[trigger]
            r@.contains_key(k) ==> r@[k] == words_of(text@).to_multiset().count(k@),
        !has_word_char(text@) ==> r@ == Map::<String, usize>::empty(),
{
    count(text.as_str())
}

} // verus!
