//! Uzbek words for non-negative integers, in Latin spelling.
use vstd::prelude::*;
use vstd::string::{StrSliceExecFns, StringExecFns};

verus! {

pub open spec fn pow10(p: nat) -> nat
    decreases p,
{
    if p == 0 {
        1
    } else {
        10 * pow10((p - 1) as nat)
    }
}

proof fn lemma_pow10_values()
    ensures
        pow10(0) == 1,
        pow10(1) == 10,
        pow10(2) == 100,
        pow10(3) == 1000,
        pow10(4) == 10000,
        pow10(5) == 100000,
        pow10(6) == 1000000,
        pow10(7) == 10000000,
        pow10(8) == 100000000,
        pow10(9) == 1000000000,
        pow10(10) == 10000000000,
        pow10(11) == 100000000000,
        pow10(12) == 1000000000000,
        pow10(13) == 10000000000000,
        pow10(14) == 100000000000000,
        pow10(15) == 1000000000000000,
        pow10(16) == 10000000000000000,
        pow10(17) == 100000000000000000,
        pow10(18) == 1000000000000000000,
{
    reveal_with_fuel(pow10, 19);
}

/// Words for 1 to 19.
pub open spec fn ones_word(n: int) -> Seq<char> {
    if n == 1 {
        "bir"@
    } else if n == 2 {
        "ikki"@
    } else if n == 3 {
        "uch"@
    } else if n == 4 {
        "to‘rt"@
    } else if n == 5 {
        "besh"@
    } else if n == 6 {
        "olti"@
    } else if n == 7 {
        "yetti"@
    } else if n == 8 {
        "sakkiz"@
    } else if n == 9 {
        "to‘qqiz"@
    } else if n == 10 {
        "o‘n"@
    } else if n == 11 {
        "o‘n bir"@
    } else if n == 12 {
        "o‘n ikki"@
    } else if n == 13 {
        "o‘n uch"@
    } else if n == 14 {
        "o‘n to‘rt"@
    } else if n == 15 {
        "o‘n besh"@
    } else if n == 16 {
        "o‘n olti"@
    } else if n == 17 {
        "o‘n yetti"@
    } else if n == 18 {
        "o‘n sakkiz"@
    } else if n == 19 {
        "o‘n to‘qqiz"@
    } else {
        ""@
    }
}

/// Words for 20, 30, ..., 90, by their tens digit.
pub open spec fn tens_word(d: int) -> Seq<char> {
    if d == 2 {
        "yigirma"@
    } else if d == 3 {
        "o‘ttiz"@
    } else if d == 4 {
        "qirq"@
    } else if d == 5 {
        "ellik"@
    } else if d == 6 {
        "oltmish"@
    } else if d == 7 {
        "yetmish"@
    } else if d == 8 {
        "sakson"@
    } else if d == 9 {
        "to‘qson"@
    } else {
        ""@
    }
}

/// Words for the powers of ten that have a name, by exponent.
pub open spec fn mult_word(p: int) -> Seq<char> {
    if p == 2 {
        "yuz"@
    } else if p == 3 {
        "ming"@
    } else if p == 6 {
        "million"@
    } else if p == 9 {
        "milliard"@
    } else if p == 12 {
        "trillion"@
    } else if p == 15 {
        "kvadrillion"@
    } else if p == 18 {
        "kvintilion"@
    } else {
        ""@
    }
}

/// The exponent of the largest named group (thousand, million, ...) that
/// `n` reaches, for `n` from one thousand on.
pub open spec fn group_power(n: int) -> nat {
    if n < 1_000_000 {
        3
    } else if n < 1_000_000_000 {
        6
    } else if n < 1_000_000_000_000 {
        9
    } else if n < 1_000_000_000_000_000 {
        12
    } else {
        15
    }
}

/// The count of `10^p` groups in `n`, in words, followed by the group's name
/// (`nol` for a count of zero).
pub open spec fn base_words(n: int, p: nat) -> Seq<char>
    decreases n, 0int,
    via base_words_decreases
{
    if n <= 0 {
        "nol"@ + " "@ + mult_word(p as int)
    } else if 10 <= pow10(p) {
        num_words(n / (pow10(p) as int)) + " "@ + mult_word(p as int)
    } else {
        seq![]
    }
}

/// `n` as its count of `10^p` groups and the rest in words; a rest of zero
/// is left out.
pub open spec fn group_words(n: int, p: nat) -> Seq<char>
    decreases n, (if pow10(p) <= n { 1int } else { 4int }),
    via group_words_decreases
{
    if 0 <= n && 10 <= pow10(p) {
        let y = n % (pow10(p) as int);
        if y == 0 {
            base_words(n, p)
        } else {
            base_words(n, p) + " "@ + num_words(y)
        }
    } else {
        seq![]
    }
}

/// `n` in words: `nol` for zero; a word of the tables; tens and then units,
/// if any; or the count of the largest named group reached, its name, and
/// the rest, if any.
pub open spec fn num_words(n: int) -> Seq<char>
    decreases n, 2int,
    via num_words_decreases
{
    if n <= 0 {
        "nol"@
    } else if n < 20 {
        ones_word(n)
    } else if n < 100 {
        if n % 10 == 0 {
            tens_word(n / 10)
        } else {
            tens_word(n / 10) + " "@ + num_words(n % 10)
        }
    } else if n < 1000 {
        group_words(n, 2)
    } else {
        group_words(n, group_power(n))
    }
}

#[via_fn]
proof fn num_words_decreases(n: int) {
    lemma_pow10_values();
}

#[via_fn]
proof fn base_words_decreases(n: int, p: nat) {
    if n >= 1 && pow10(p) >= 10 {
        assert(n / (pow10(p) as int) < n) by (nonlinear_arith)
            requires
                n >= 1,
                pow10(p) >= 10,
        ;
    }
}

proof fn lemma_rest_smaller(n: int, p: nat)
    ensures
        0 <= n && pow10(p) <= n && 10 <= pow10(p) ==> n % (pow10(p) as int) < n,
        0 <= n && n < pow10(p) ==> n % (pow10(p) as int) == n,
{
    let q = pow10(p) as int;
    if 0 <= n && pow10(p) <= n && 10 <= pow10(p) {
        assert(n % q < q) by (nonlinear_arith)
            requires
                q > 0,
        ;
    }
    if 0 <= n && n < q {
        vstd::arithmetic::div_mod::lemma_small_mod(n as nat, q as nat);
    }
}

#[via_fn]
proof fn group_words_decreases(n: int, p: nat) {
    lemma_rest_smaller(n, p);
}

fn ones(n: i64) -> (r: &'static str)
    requires
        1 <= n < 20,
    ensures
        r@ == ones_word(n as int),
{
    if n == 1 {
        "bir"
    } else if n == 2 {
        "ikki"
    } else if n == 3 {
        "uch"
    } else if n == 4 {
        "to‘rt"
    } else if n == 5 {
        "besh"
    } else if n == 6 {
        "olti"
    } else if n == 7 {
        "yetti"
    } else if n == 8 {
        "sakkiz"
    } else if n == 9 {
        "to‘qqiz"
    } else if n == 10 {
        "o‘n"
    } else if n == 11 {
        "o‘n bir"
    } else if n == 12 {
        "o‘n ikki"
    } else if n == 13 {
        "o‘n uch"
    } else if n == 14 {
        "o‘n to‘rt"
    } else if n == 15 {
        "o‘n besh"
    } else if n == 16 {
        "o‘n olti"
    } else if n == 17 {
        "o‘n yetti"
    } else if n == 18 {
        "o‘n sakkiz"
    } else if n == 19 {
        "o‘n to‘qqiz"
    } else {
        ""
    }
}

fn tens(d: i64) -> (r: &'static str)
    requires
        2 <= d < 10,
    ensures
        r@ == tens_word(d as int),
{
    if d == 2 {
        "yigirma"
    } else if d == 3 {
        "o‘ttiz"
    } else if d == 4 {
        "qirq"
    } else if d == 5 {
        "ellik"
    } else if d == 6 {
        "oltmish"
    } else if d == 7 {
        "yetmish"
    } else if d == 8 {
        "sakson"
    } else if d == 9 {
        "to‘qson"
    } else {
        ""
    }
}

/// The powers of ten that have a name.
pub open spec fn named_power(p: nat) -> bool {
    p == 2 || p == 3 || p == 6 || p == 9 || p == 12 || p == 15 || p == 18
}

fn mult(p: u32) -> (r: &'static str)
    requires
        named_power(p as nat),
    ensures
        r@ == mult_word(p as int),
{
    if p == 2 {
        "yuz"
    } else if p == 3 {
        "ming"
    } else if p == 6 {
        "million"
    } else if p == 9 {
        "milliard"
    } else if p == 12 {
        "trillion"
    } else if p == 15 {
        "kvadrillion"
    } else if p == 18 {
        "kvintilion"
    } else {
        ""
    }
}

fn power_of_ten(p: u32) -> (r: i64)
    requires
        p <= 18,
    ensures
        r as int == pow10(p as nat),
{
    proof {
        lemma_pow10_values();
    }
    if p == 0 {
        1
    } else if p == 1 {
        10
    } else if p == 2 {
        100
    } else if p == 3 {
        1000
    } else if p == 4 {
        10000
    } else if p == 5 {
        100000
    } else if p == 6 {
        1000000
    } else if p == 7 {
        10000000
    } else if p == 8 {
        100000000
    } else if p == 9 {
        1000000000
    } else if p == 10 {
        10000000000
    } else if p == 11 {
        100000000000
    } else if p == 12 {
        1000000000000
    } else if p == 13 {
        10000000000000
    } else if p == 14 {
        100000000000000
    } else if p == 15 {
        1000000000000000
    } else if p == 16 {
        10000000000000000
    } else if p == 17 {
        100000000000000000
    } else if p == 18 {
        1000000000000000000
    } else {
        1_000_000_000_000_000_000
    }
}

/// `number` in Uzbek words.
pub fn integer_to_word(number: i64) -> (r: String)
    requires
        0 <= number < 1_000_000_000_000_000_000,
    ensures
        r@ == num_words(number as int),
    decreases number, 2int,
{
    if number == 0 {
        return String::from_str("nol");
    } else if number < 20 {
        return String::from_str(ones(number));
    } else if number < 100 {
        let mut r = String::from_str(tens(number / 10));
        if number % 10 != 0 {
            r.append(" ");
            let rest = integer_to_word(number % 10);
            r.append(rest.as_str());
        }
        return r;
    } else if number < 1000 {
        proof {
            lemma_pow10_values();
        }
        return one(number, 2);
    }
    proof {
        lemma_pow10_values();
    }
    let mut i: u32 = 4;
    while i < 27
        invariant
            4 <= i <= 18,
            number >= 1000,
            pow10((i - 1) as nat) <= number < 1_000_000_000_000_000_000,
        ensures
            4 <= i <= 18,
            pow10((i - 1) as nat) <= number < pow10(i as nat),
        decreases 27 - i,
    {
        proof {
            lemma_pow10_values();
        }
        if number < power_of_ten(i) {
            break;
        }
        i = i + 1;
    }
    proof {
        lemma_pow10_values();
    }
    if i % 3 != 0 {
        assert(i - (i % 3) == group_power(number as int));
        hundred(number, i - (i % 3))
    } else {
        assert(i - 3 == group_power(number as int));
        one(number, i - 3)
    }
}

/// The count of `10^power` groups in `number`, in words (`nol` for none),
/// and the group's name.
pub fn base(number: i64, power: u32) -> (r: String)
    requires
        named_power(power as nat),
        -pow10(power as nat) < number,
    ensures
        r@ == base_words(number as int, power as nat),
    decreases number, 0int,
{
    proof {
        lemma_pow10_values();
    }
    let mut r = if number <= 0 {
        String::from_str("nol")
    } else {
        let q = power_of_ten(power);
        assert(number / q <= number / 100) by (nonlinear_arith)
            requires
                number >= 0,
                q >= 100,
        ;
        assert(number / 100 < 1_000_000_000_000_000_000) by (nonlinear_arith)
            requires
                number <= 9223372036854775807,
        ;
        assert(number / q < number) by (nonlinear_arith)
            requires
                number >= 1,
                q >= 10,
        ;
        integer_to_word(number / q)
    };
    r.append(" ");
    r.append(mult(power));
    r
}

/// `number` as its count of `10^power` groups and the rest in words; a rest
/// of zero is left out.
pub fn one(number: i64, power: u32) -> (r: String)
    requires
        named_power(power as nat),
        0 <= number,
    ensures
        r@ == group_words(number as int, power as nat),
    decreases number, (if pow10(power as nat) <= number { 1int } else { 4int }),
{
    proof {
        lemma_pow10_values();
    }
    let q = power_of_ten(power);
    let y = number % q;
    assert(0 <= y < q) by (nonlinear_arith)
        requires
            q > 0,
            y == number % q,
    ;
    proof {
        lemma_rest_smaller(number as int, power as nat);
    }
    let mut r = base(number, power);
    if y != 0 {
        r.append(" ");
        let rest = integer_to_word(y);
        r.append(rest.as_str());
    }
    r
}

/// As `one`: `number` as its count of `10^power` groups and the rest in
/// words, a rest of zero left out.
pub fn hundred(number: i64, power: u32) -> (r: String)
    requires
        named_power(power as nat),
        0 <= number,
    ensures
        r@ == group_words(number as int, power as nat),
    decreases number, (if pow10(power as nat) <= number { 1int } else { 4int }),
{
    proof {
        lemma_pow10_values();
    }
    let q = power_of_ten(power);
    let y = number % q;
    assert(0 <= y < q) by (nonlinear_arith)
        requires
            q > 0,
            y == number % q,
    ;
    proof {
        lemma_rest_smaller(number as int, power as nat);
    }
    let mut r = base(number, power);
    if y != 0 {
        r.append(" ");
        let rest = integer_to_word(y);
        r.append(rest.as_str());
    }
    r
}

} // verus!
