//! Decimal rendering and parsing of the numbers the documents hold:
//! task identifiers and the fields of a timestamp.

use vstd::prelude::*;

verus! {

/// `c` is a decimal digit.
pub open spec fn is_digit(c: char) -> bool {
    48 <= c as u32 <= 57
}

/// The value of the digit `c`.
pub open spec fn digit_val(c: char) -> nat {
    ((c as u32) - ('0' as u32)) as nat
}

/// The digit character for `d < 10`.
pub open spec fn char_of_digit(d: nat) -> char {
    if d == 0 {
        '0'
    } else if d == 1 {
        '1'
    } else if d == 2 {
        '2'
    } else if d == 3 {
        '3'
    } else if d == 4 {
        '4'
    } else if d == 5 {
        '5'
    } else if d == 6 {
        '6'
    } else if d == 7 {
        '7'
    } else if d == 8 {
        '8'
    } else {
        '9'
    }
}

/// The shortest decimal numeral of `n`, most significant digit first.
pub open spec fn dec_of(n: nat) -> Seq<char>
    decreases n,
{
    if n < 10 {
        seq![char_of_digit(n)]
    } else {
        dec_of(n / 10).push(char_of_digit(n % 10))
    }
}

/// The number a digit string denotes.
pub open spec fn dec_val(s: Seq<char>) -> nat
    decreases s.len(),
{
    if s.len() == 0 {
        0
    } else {
        dec_val(s.drop_last()) * 10 + digit_val(s.last())
    }
}

/// Every character of `s` is a digit.
pub open spec fn all_digits(s: Seq<char>) -> bool {
    forall|i: int| 0 <= i < s.len() ==> is_digit(#[trigger] s[i])
}

/// A numeral consists of digits and denotes its number back.
pub proof fn lemma_dec_of_val(n: nat)
    ensures
        dec_of(n).len() >= 1,
        all_digits(dec_of(n)),
        dec_val(dec_of(n)) == n,
    decreases n,
{
    if n < 10 {
        assert(dec_of(n) == seq![char_of_digit(n)]);
        assert(dec_val(dec_of(n)) == dec_val(seq![char_of_digit(n)].drop_last()) * 10 + digit_val(
            char_of_digit(n),
        ));
        assert(seq![char_of_digit(n)].drop_last() =~= Seq::<char>::empty());
    } else {
        lemma_dec_of_val(n / 10);
        let s = dec_of(n / 10).push(char_of_digit(n % 10));
        assert(s.drop_last() =~= dec_of(n / 10));
        assert(dec_val(s) == (n / 10) * 10 + n % 10);
        assert((n / 10) * 10 + n % 10 == n) by (nonlinear_arith);
        assert(forall|i: int|
            0 <= i < s.len() ==> is_digit(#[trigger] s[i]) || i == s.len() - 1);
    }
}

/// The digit character of `d < 10` is a digit and denotes `d`.
pub proof fn lemma_char_of_digit(d: nat)
    requires
        d < 10,
    ensures
        is_digit(char_of_digit(d)),
        digit_val(char_of_digit(d)) == d,
{
}

/// The greedy digit scan: the longest digit prefix, and what follows it.
pub open spec fn take_digits(s: Seq<char>) -> (Seq<char>, Seq<char>)
    decreases s.len(),
{
    if s.len() == 0 || !is_digit(s[0]) {
        (Seq::empty(), s)
    } else {
        let (d, r) = take_digits(s.skip(1));
        (seq![s[0]] + d, r)
    }
}

/// The scan stops exactly at the end of a digit prefix when what follows
/// does not start with a digit.
pub proof fn lemma_take_digits_prefix(d: Seq<char>, rest: Seq<char>)
    requires
        all_digits(d),
        rest.len() == 0 || !is_digit(rest[0]),
    ensures
        take_digits(d + rest).0 == d,
        take_digits(d + rest).1 == rest,
    decreases d.len(),
{
    if d.len() == 0 {
        assert(d + rest =~= rest);
    } else {
        let s = d + rest;
        assert(s[0] == d[0]);
        assert(s.skip(1) =~= d.skip(1) + rest);
        assert(all_digits(d.skip(1)));
        lemma_take_digits_prefix(d.skip(1), rest);
        assert(seq![s[0]] + d.skip(1) =~= d);
    }
}

/// A digit string's value is at least the value of any of its prefixes.
pub proof fn lemma_dec_val_prefix(s: Seq<char>, k: int)
    requires
        0 <= k <= s.len(),
    ensures
        dec_val(s.take(k)) <= dec_val(s),
    decreases s.len(),
{
    if k < s.len() {
        assert(dec_val(s.drop_last()) * 10 + digit_val(s.last()) >= dec_val(s.drop_last()))
            by (nonlinear_arith);
        assert(s.drop_last().take(k) =~= s.take(k));
        lemma_dec_val_prefix(s.drop_last(), k);
    } else {
        assert(s.take(k) =~= s);
    }
}

/// When the first `k` characters are digits, the greedy scan takes at
/// least those characters.
pub proof fn lemma_take_digits_lower(s: Seq<char>, k: int)
    requires
        0 <= k <= s.len(),
        forall|j: int| 0 <= j < k ==> is_digit(#[trigger] s[j]),
    ensures
        take_digits(s).0.len() >= k,
        take_digits(s).0.take(k) == s.take(k),
    decreases k,
{
    if k == 0 {
        assert(take_digits(s).0.take(0) =~= s.take(0));
    } else {
        assert(is_digit(s[0]));
        let tail = take_digits(s.skip(1)).0;
        assert(forall|j: int| 0 <= j < k - 1 ==> is_digit(#[trigger] s.skip(1)[j]));
        lemma_take_digits_lower(s.skip(1), k - 1);
        assert(take_digits(s).0 == seq![s[0]] + tail);
        assert((seq![s[0]] + tail).take(k) =~= s.take(k)) by {
            assert(tail.take(k - 1) == s.skip(1).take(k - 1));
            assert(forall|j: int|
                1 <= j < k ==> (seq![s[0]] + tail)[j] == tail[j - 1] && tail.take(k - 1)[j - 1]
                    == tail[j - 1] && s.skip(1).take(k - 1)[j - 1] == s[j]);
        }
    }
}

/// Parsing a decimal number: the greedy digit prefix, rejected when it is
/// empty or its value does not fit a `u64`.
pub open spec fn spec_parse_dec(s: Seq<char>) -> Option<(u64, Seq<char>)> {
    let (d, r) = take_digits(s);
    if d.len() == 0 || dec_val(d) > u64::MAX {
        None
    } else {
        Some((dec_val(d) as u64, r))
    }
}

/// Parsing reads a rendered numeral back, whatever follows it, as long as
/// that does not start with a digit.
pub proof fn lemma_parse_dec_of(n: u64, rest: Seq<char>)
    requires
        rest.len() == 0 || !is_digit(rest[0]),
    ensures
        spec_parse_dec(dec_of(n as nat) + rest) == Some((n, rest)),
{
    lemma_dec_of_val(n as nat);
    lemma_take_digits_prefix(dec_of(n as nat), rest);
}

/// The digit character for `d`.
pub fn digit_char(d: u64) -> (c: char)
    requires
        d < 10,
    ensures
        c == char_of_digit(d as nat),
{
    if d == 0 {
        '0'
    } else if d == 1 {
        '1'
    } else if d == 2 {
        '2'
    } else if d == 3 {
        '3'
    } else if d == 4 {
        '4'
    } else if d == 5 {
        '5'
    } else if d == 6 {
        '6'
    } else if d == 7 {
        '7'
    } else if d == 8 {
        '8'
    } else {
        '9'
    }
}

/// Append the decimal numeral of `n`.
pub fn push_dec(out: &mut Vec<char>, n: u64)
    ensures
        final (out)@ == old(out)@ + dec_of(n as nat),
    decreases n,
{
    let ghost pre = out@;
    if n < 10 {
        out.push(digit_char(n));
        proof {
            assert(out@ =~= pre + dec_of(n as nat));
        }
    } else {
        push_dec(out, n / 10);
        out.push(digit_char(n % 10));
        proof {
            assert((n as nat) / 10 == (n / 10) as nat);
            assert((n as nat) % 10 == (n % 10) as nat);
            assert(out@ =~= pre + dec_of(n as nat));
        }
    }
}

/// The two-digit, zero-padded numeral of `n < 100`.
pub open spec fn two_digits(n: nat) -> Seq<char> {
    seq![char_of_digit(n / 10), char_of_digit(n % 10)]
}

/// The four-digit, zero-padded numeral of `n < 10000`.
pub open spec fn four_digits(n: nat) -> Seq<char> {
    two_digits(n / 100) + two_digits(n % 100)
}

/// Append the two-digit numeral of `n`.
pub fn push_two_digits(out: &mut Vec<char>, n: u64)
    requires
        n < 100,
    ensures
        final (out)@ == old(out)@ + two_digits(n as nat),
{
    let ghost pre = out@;
    out.push(digit_char(n / 10));
    out.push(digit_char(n % 10));
    proof {
        assert(out@ =~= pre + two_digits(n as nat));
    }
}

/// Append the four-digit numeral of `n`.
pub fn push_four_digits(out: &mut Vec<char>, n: u64)
    requires
        n < 10000,
    ensures
        final (out)@ == old(out)@ + four_digits(n as nat),
{
    let ghost pre = out@;
    push_two_digits(out, n / 100);
    push_two_digits(out, n % 100);
    proof {
        assert(out@ =~= pre + four_digits(n as nat));
    }
}

} // verus!

