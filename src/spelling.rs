//! Canonical spelling: each digraph (`sh`, `ch`) and each letter with an
//! apostrophe (`gʻ`, `oʻ`) becomes one sentinel character, every variant
//! apostrophe becomes `ʼ`; and the expansion back to ordinary spelling.
//!
//! Two flavours exist. The cased one keeps upper-case letters apart (`Sh` and
//! `SH` get sentinels of their own) and is used for collation; the lower-case
//! one only knows lower-case letters and is used by the syllable splitter.
use vstd::prelude::*;

verus! {

/// The glyphs written for the Uzbek apostrophe.
pub open spec fn is_apostrophe(c: char) -> bool {
    c == '\u{2bb}' || c == '\u{2bc}' || c == '\'' || c == '\u{2018}' || c == '\u{2019}' || c
        == '\u{201b}' || c == '\u{2032}' || c == '\u{2bd}' || c == '`'
}

pub fn apostrophe(c: char) -> (r: bool)
    ensures
        r == is_apostrophe(c),
{
    c == '\u{2bb}' || c == '\u{2bc}' || c == '\'' || c == '\u{2018}' || c == '\u{2019}' || c
        == '\u{201b}' || c == '\u{2032}' || c == '\u{2bd}' || c == '`'
}

/// The sentinel that the two-character spelling `a b` collapses to, if any.
pub open spec fn pair_sentinel(a: char, b: char, cased: bool) -> Option<char> {
    if is_apostrophe(b) {
        if a == 'g' {
            Some('ğ')
        } else if a == 'o' {
            Some('ŏ')
        } else if cased && a == 'G' {
            Some('Ğ')
        } else if cased && a == 'O' {
            Some('Ŏ')
        } else {
            None
        }
    } else if a == 's' && b == 'h' {
        Some('š')
    } else if a == 'c' && b == 'h' {
        Some('č')
    } else if cased && a == 'S' && b == 'h' {
        Some('Š')
    } else if cased && a == 'S' && b == 'H' {
        Some('Ö')
    } else if cased && a == 'C' && b == 'h' {
        Some('Č')
    } else if cased && a == 'C' && b == 'H' {
        Some('Ü')
    } else {
        None
    }
}

pub fn pair(a: char, b: char, cased: bool) -> (r: Option<char>)
    ensures
        r == pair_sentinel(a, b, cased),
{
    if apostrophe(b) {
        if a == 'g' {
            Some('ğ')
        } else if a == 'o' {
            Some('ŏ')
        } else if cased && a == 'G' {
            Some('Ğ')
        } else if cased && a == 'O' {
            Some('Ŏ')
        } else {
            None
        }
    } else if a == 's' && b == 'h' {
        Some('š')
    } else if a == 'c' && b == 'h' {
        Some('č')
    } else if cased && a == 'S' && b == 'h' {
        Some('Š')
    } else if cased && a == 'S' && b == 'H' {
        Some('Ö')
    } else if cased && a == 'C' && b == 'h' {
        Some('Č')
    } else if cased && a == 'C' && b == 'H' {
        Some('Ü')
    } else {
        None
    }
}

/// Canonical form of `s`, read left to right: a pair with a sentinel becomes
/// that sentinel, a lone apostrophe of any glyph becomes `ʼ`, anything else
/// stays. Pairs never overlap (their second characters are apostrophes or
/// `h`/`H`, their first ones letters), so this equals applying the rules one
/// after another over the whole text, letter rules before the apostrophe rule.
pub open spec fn canonical(s: Seq<char>, cased: bool) -> Seq<char>
    decreases s.len(),
{
    if s.len() == 0 {
        seq![]
    } else if s.len() >= 2 && pair_sentinel(s[0], s[1], cased) is Some {
        seq![pair_sentinel(s[0], s[1], cased).unwrap()] + canonical(s.skip(2), cased)
    } else if is_apostrophe(s[0]) {
        seq!['\u{2bc}'] + canonical(s.skip(1), cased)
    } else {
        seq![s[0]] + canonical(s.skip(1), cased)
    }
}

/// What a sentinel expands back to. Both flavours write the one canonical
/// apostrophe `‘` after `g` and `o`.
pub open spec fn expansion(c: char, cased: bool) -> Seq<char> {
    if c == 'ğ' {
        seq!['g', '\u{2018}']
    } else if c == 'ŏ' {
        seq!['o', '\u{2018}']
    } else if c == 'š' {
        seq!['s', 'h']
    } else if c == 'č' {
        seq!['c', 'h']
    } else if cased && c == 'Ğ' {
        seq!['G', '\u{2018}']
    } else if cased && c == 'Ŏ' {
        seq!['O', '\u{2018}']
    } else if cased && c == 'Š' {
        seq!['S', 'h']
    } else if cased && c == 'Ö' {
        seq!['S', 'H']
    } else if cased && c == 'Č' {
        seq!['C', 'h']
    } else if cased && c == 'Ü' {
        seq!['C', 'H']
    } else {
        seq![c]
    }
}

/// Every character of `s` replaced by its expansion.
pub open spec fn expanded(s: Seq<char>, cased: bool) -> Seq<char>
    decreases s.len(),
{
    if s.len() == 0 {
        seq![]
    } else {
        expanded(s.drop_last(), cased) + expansion(s.last(), cased)
    }
}

fn push_expansion(out: &mut Vec<char>, c: char, cased: bool)
    ensures
        final(out)@ == old(out)@ + expansion(c, cased),
{
    let ghost start = out@;
    if c == 'ğ' {
        out.push('g');
        out.push('\u{2018}');
    } else if c == 'ŏ' {
        out.push('o');
        out.push('\u{2018}');
    } else if c == 'š' {
        out.push('s');
        out.push('h');
    } else if c == 'č' {
        out.push('c');
        out.push('h');
    } else if cased && c == 'Ğ' {
        out.push('G');
        out.push('\u{2018}');
    } else if cased && c == 'Ŏ' {
        out.push('O');
        out.push('\u{2018}');
    } else if cased && c == 'Š' {
        out.push('S');
        out.push('h');
    } else if cased && c == 'Ö' {
        out.push('S');
        out.push('H');
    } else if cased && c == 'Č' {
        out.push('C');
        out.push('h');
    } else if cased && c == 'Ü' {
        out.push('C');
        out.push('H');
    } else {
        out.push(c);
    }
    assert(out@ =~= start + expansion(c, cased));
}

/// The canonical form of `s`.
pub fn canonicalize_chars(s: &Vec<char>, cased: bool) -> (r: Vec<char>)
    ensures
        r@ == canonical(s@, cased),
{
    let n = s.len();
    let mut out: Vec<char> = Vec::new();
    let mut i: usize = 0;
    assert(s@.subrange(0, n as int) =~= s@);
    assert(out@ + canonical(s@, cased) =~= canonical(s@, cased));
    while i < n
        invariant
            n == s@.len(),
            i <= n,
            canonical(s@, cased) == out@ + canonical(s@.subrange(i as int, n as int), cased),
        decreases n - i,
    {
        let ghost t = s@.subrange(i as int, n as int);
        let mut p: Option<char> = None;
        if i + 1 < n {
            p = pair(s[i], s[i + 1], cased);
        }
        match p {
            Some(x) => {
                assert(t.skip(2) =~= s@.subrange(i + 2, n as int));
                out.push(x);
                i = i + 2;
            },
            None => {
                assert(t.skip(1) =~= s@.subrange(i + 1, n as int));
                if apostrophe(s[i]) {
                    out.push('\u{2bc}');
                } else {
                    out.push(s[i]);
                }
                i = i + 1;
            },
        }
        assert(canonical(s@, cased) =~= out@ + canonical(s@.subrange(i as int, n as int), cased));
    }
    assert(out@ =~= out@ + canonical(s@.subrange(n as int, n as int), cased));
    out
}

/// The ordinary spelling of `s`: every sentinel expanded.
pub fn expand_chars(s: &Vec<char>, cased: bool) -> (r: Vec<char>)
    ensures
        r@ == expanded(s@, cased),
{
    let mut out: Vec<char> = Vec::new();
    let mut i: usize = 0;
    while i < s.len()
        invariant
            i <= s@.len(),
            out@ == expanded(s@.subrange(0, i as int), cased),
        decreases s@.len() - i,
    {
        push_expansion(&mut out, s[i], cased);
        assert(s@.subrange(0, i + 1).drop_last() =~= s@.subrange(0, i as int));
        i = i + 1;
    }
    assert(s@.subrange(0, s@.len() as int) =~= s@);
    out
}

/// Canonical spelling works piece by piece where no pair straddles the cut.
pub(crate) proof fn lemma_canonical_concat(x: Seq<char>, y: Seq<char>, cased: bool)
    requires
        x.len() == 0 || y.len() == 0 || pair_sentinel(x.last(), y[0], cased) is None,
    ensures
        canonical(x + y, cased) == canonical(x, cased) + canonical(y, cased),
    decreases x.len(),
{
    let s = x + y;
    if x.len() == 0 {
        assert(s =~= y);
        assert(canonical(x, cased) + canonical(y, cased) =~= canonical(y, cased));
    } else if y.len() == 0 {
        assert(s =~= x);
        assert(canonical(x, cased) + canonical(y, cased) =~= canonical(x, cased));
    } else {
        let k: int = if x.len() >= 2 && pair_sentinel(x[0], x[1], cased) is Some {
            2
        } else {
            1
        };
        assert(s[0] == x[0]);
        if x.len() >= 2 {
            assert(s[1] == x[1]);
        } else {
            assert(s[1] == y[0]);
        }
        assert(s.skip(k) =~= x.skip(k) + y);
        if x.skip(k).len() > 0 {
            assert(x.skip(k).last() == x.last());
        }
        lemma_canonical_concat(x.skip(k), y, cased);
        assert(canonical(s, cased) =~= canonical(x, cased) + canonical(y, cased));
    }
}

/// Which glyph of the apostrophe follows `g` or `o` (or `G`, `O`) never
/// changes the canonical spelling, wherever in a text it stands.
pub proof fn lemma_apostrophe_variants(x: Seq<char>, l: char, v: char, y: Seq<char>, cased: bool)
    requires
        is_apostrophe(v),
        l == 'g' || l == 'o' || l == 'G' || l == 'O',
    ensures
        canonical(x + seq![l, v] + y, cased) == canonical(x + seq![l, '\u{2bb}'] + y, cased),
{
    let a = seq![l, v];
    let b = seq![l, '\u{2bb}'];
    lemma_canonical_concat(a, y, cased);
    lemma_canonical_concat(b, y, cased);
    lemma_canonical_concat(x, a + y, cased);
    lemma_canonical_concat(x, b + y, cased);
    assert(x + a + y =~= x + (a + y));
    assert(x + b + y =~= x + (b + y));
    assert(a.skip(1) =~= seq![v]);
    assert(b.skip(1) =~= seq!['\u{2bb}']);
    assert(a.skip(2) =~= Seq::<char>::empty());
    assert(b.skip(2) =~= Seq::<char>::empty());
    assert(seq![v].skip(1) =~= Seq::<char>::empty());
    assert(seq!['\u{2bb}'].skip(1) =~= Seq::<char>::empty());
    reveal_with_fuel(canonical, 3);
    assert(canonical(a, cased) =~= canonical(b, cased));
}

pub(crate) proof fn lemma_expanded_concat(a: Seq<char>, b: Seq<char>, cased: bool)
    ensures
        expanded(a + b, cased) == expanded(a, cased) + expanded(b, cased),
    decreases b.len(),
{
    if b.len() == 0 {
        assert(a + b =~= a);
        assert(expanded(a, cased) + expanded(b, cased) =~= expanded(a, cased));
    } else {
        assert((a + b).drop_last() =~= a + b.drop_last());
        lemma_expanded_concat(a, b.drop_last(), cased);
        assert(expanded(a + b, cased) =~= expanded(a, cased) + expanded(b, cased));
    }
}

/// The characters that stand for a digraph or a letter with an apostrophe.
/// The lower-case flavour only has the lower-case ones.
pub open spec fn is_sentinel(c: char, cased: bool) -> bool {
    c == 'ğ' || c == 'ŏ' || c == 'š' || c == 'č' || (cased && (c == 'Ğ' || c == 'Ŏ' || c == 'Š'
        || c == 'Ö' || c == 'Č' || c == 'Ü'))
}

/// The letters that take an apostrophe: `g` and `o`, and in the cased
/// flavour `G` and `O` too.
pub open spec fn is_apostrophe_host(c: char, cased: bool) -> bool {
    c == 'g' || c == 'o' || (cased && (c == 'G' || c == 'O'))
}

/// `w` is written the way the expansion writes: no sentinel character of the
/// flavour, the canonical apostrophe `‘` after a letter that takes one, and
/// `ʼ` as any other apostrophe.
pub open spec fn canonically_spelled(w: Seq<char>, cased: bool) -> bool {
    forall|i: int|
        0 <= i < w.len() ==> {
            &&& !is_sentinel(#[trigger] w[i], cased)
            &&& is_apostrophe(w[i]) ==> if i > 0 && is_apostrophe_host(w[i - 1], cased) {
                w[i] == '\u{2018}'
            } else {
                w[i] == '\u{2bc}'
            }
        }
}

/// Expanding the canonical spelling of a canonically spelled word gives the
/// word back, in either flavour.
pub proof fn lemma_round_trip(w: Seq<char>, cased: bool)
    requires
        canonically_spelled(w, cased),
    ensures
        expanded(canonical(w, cased), cased) == w,
    decreases w.len(),
{
    if w.len() == 0 {
        return;
    }
    assert(!is_sentinel(w[0], cased));
    let k: int = if w.len() >= 2 && pair_sentinel(w[0], w[1], cased) is Some {
        2
    } else {
        1
    };
    let rest = w.skip(k);
    let head = if k == 2 {
        seq![pair_sentinel(w[0], w[1], cased).unwrap()]
    } else if is_apostrophe(w[0]) {
        seq!['\u{2bc}']
    } else {
        seq![w[0]]
    };
    assert(canonical(w, cased) == head + canonical(rest, cased));
    assert forall|j: int| 0 <= j < rest.len() implies {
        &&& !is_sentinel(#[trigger] rest[j], cased)
        &&& is_apostrophe(rest[j]) ==> if j > 0 && is_apostrophe_host(rest[j - 1], cased) {
            rest[j] == '\u{2018}'
        } else {
            rest[j] == '\u{2bc}'
        }
    } by {
        assert(rest[j] == w[j + k]);
        assert(!is_sentinel(w[j + k], cased));
        if j > 0 {
            assert(rest[j - 1] == w[j + k - 1]);
        } else if k == 2 {
            assert(!is_sentinel(w[1], cased));
        }
    }
    lemma_round_trip(rest, cased);
    lemma_expanded_concat(head, canonical(rest, cased), cased);
    assert(expanded(head, cased) =~= expanded(head.drop_last(), cased) + expansion(head[0], cased));
    if k == 2 {
        assert(!is_sentinel(w[1], cased));
        assert(expansion(head[0], cased) =~= w.subrange(0, 2));
    } else {
        assert(expansion(head[0], cased) =~= w.subrange(0, 1));
    }
    assert(w =~= w.subrange(0, k) + rest);
}

} // verus!
