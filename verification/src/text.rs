//! Text: how numbers are written down.
use vstd::prelude::*;

verus! {

/// One decimal digit.
pub open spec fn digit(d: nat) -> Seq<char> {
    if d == 0 {
        "0"@
    } else if d == 1 {
        "1"@
    } else if d == 2 {
        "2"@
    } else if d == 3 {
        "3"@
    } else if d == 4 {
        "4"@
    } else if d == 5 {
        "5"@
    } else if d == 6 {
        "6"@
    } else if d == 7 {
        "7"@
    } else if d == 8 {
        "8"@
    } else {
        "9"@
    }
}

/// A natural number in decimal, without leading zeros.
pub open spec fn decimal(n: nat) -> Seq<char>
    decreases n,
{
    if n < 10 {
        digit(n)
    } else {
        decimal(n / 10) + digit(n % 10)
    }
}

/// An integer in decimal, with a sign only where it is negative.
pub open spec fn decimal_int(n: int) -> Seq<char> {
    if n < 0 {
        "-"@ + decimal((-n) as nat)
    } else {
        decimal(n as nat)
    }
}

/// The last `width` decimal digits of `n`, with leading zeros.
pub open spec fn padded(n: nat, width: nat) -> Seq<char>
    decreases width,
{
    if width == 0 {
        Seq::empty()
    } else {
        padded(n / 10, (width - 1) as nat) + digit(n % 10)
    }
}

fn push_digit(text: &mut String, d: u128)
    requires
        d < 10,
    ensures
        final(text)@ == old(text)@ + digit(d as nat),
{
    if d == 0 {
        text.append("0");
    } else if d == 1 {
        text.append("1");
    } else if d == 2 {
        text.append("2");
    } else if d == 3 {
        text.append("3");
    } else if d == 4 {
        text.append("4");
    } else if d == 5 {
        text.append("5");
    } else if d == 6 {
        text.append("6");
    } else if d == 7 {
        text.append("7");
    } else if d == 8 {
        text.append("8");
    } else {
        text.append("9");
    }
}

/// Appends a natural number in decimal.
pub fn push_decimal(text: &mut String, n: u128)
    ensures
        final(text)@ == old(text)@ + decimal(n as nat),
    decreases n,
{
    if n < 10 {
        push_digit(text, n);
    } else {
        push_decimal(text, n / 10);
        push_digit(text, n % 10);
        assert(final(text)@ =~= old(text)@ + (decimal((n / 10) as nat) + digit((n % 10) as nat)));
    }
}

/// Appends an integer in decimal.
pub fn push_decimal_int(text: &mut String, n: i128)
    requires
        n > i128::MIN,
    ensures
        final(text)@ == old(text)@ + decimal_int(n as int),
{
    if n < 0 {
        text.append("-");
        push_decimal(text, (-n) as u128);
        assert(final(text)@ =~= old(text)@ + ("-"@ + decimal((-n) as nat)));
    } else {
        push_decimal(text, n as u128);
    }
}

/// Appends the last `width` decimal digits of `n`.
pub fn push_padded(text: &mut String, n: u128, width: u32)
    ensures
        final(text)@ == old(text)@ + padded(n as nat, width as nat),
    decreases width,
{
    if width > 0 {
        push_padded(text, n / 10, width - 1);
        push_digit(text, n % 10);
        assert(final(text)@ =~= old(text)@ + (padded((n / 10) as nat, (width - 1) as nat) + digit(
            (n % 10) as nat,
        )));
    } else {
        assert(final(text)@ =~= old(text)@ + padded(n as nat, width as nat));
    }
}

// ---------------------------------------------------------------- laws

/// The value of a decimal digit.
pub open spec fn digit_value(c: char) -> int {
    c as int - '0' as int
}

/// Whether a text holds decimal digits only.
pub open spec fn is_digits(text: Seq<char>) -> bool {
    forall|i: int| 0 <= i < text.len() ==> 0 <= digit_value(#[trigger] text[i]) <= 9
}

/// The number that decimal digits stand for.
pub open spec fn number_of(text: Seq<char>) -> int
    decreases text.len(),
{
    if text.len() == 0 {
        0
    } else {
        10 * number_of(text.drop_last()) + digit_value(text.last())
    }
}

proof fn lemma_digit(d: nat)
    requires
        d < 10,
    ensures
        digit(d).len() == 1,
        digit_value(digit(d)[0]) == d,
{
    reveal_strlit("0");
    reveal_strlit("1");
    reveal_strlit("2");
    reveal_strlit("3");
    reveal_strlit("4");
    reveal_strlit("5");
    reveal_strlit("6");
    reveal_strlit("7");
    reveal_strlit("8");
    reveal_strlit("9");
}

proof fn lemma_one_more_digit(text: Seq<char>, d: nat)
    requires
        d < 10,
        is_digits(text),
    ensures
        is_digits(text + digit(d)),
        number_of(text + digit(d)) == 10 * number_of(text) + d,
        (text + digit(d)).len() == text.len() + 1,
{
    lemma_digit(d);
    let whole = text + digit(d);
    assert(whole.drop_last() =~= text);
    assert(whole.last() == digit(d)[0]);
    assert forall|i: int| 0 <= i < whole.len() implies 0 <= digit_value(#[trigger] whole[i])
        <= 9 by {
        if i < text.len() {
            assert(whole[i] == text[i]);
        }
    }
}

/// What is written for a natural number are digits that stand for it, and no zero
/// stands in front of others.
pub proof fn law_numbers_read_back(n: nat)
    ensures
        is_digits(decimal(n)),
        number_of(decimal(n)) == n,
        decimal(n).len() > 0,
        n > 0 ==> decimal(n)[0] != '0',
        n == 0 ==> decimal(n).len() == 1,
    decreases n,
{
    if n < 10 {
        lemma_one_more_digit(Seq::empty(), n);
        assert(Seq::<char>::empty() + digit(n) =~= digit(n));
        lemma_digit(n);
    } else {
        law_numbers_read_back(n / 10);
        lemma_one_more_digit(decimal(n / 10), n % 10);
        assert(decimal(n)[0] == decimal(n / 10)[0]);
    }
}

/// Different numbers are written differently.
pub proof fn law_numbers_are_told_apart(a: nat, b: nat)
    requires
        decimal(a) == decimal(b),
    ensures
        a == b,
{
    law_numbers_read_back(a);
    law_numbers_read_back(b);
}

/// A negative number is written as a minus and its size.
pub proof fn law_sign_is_written(n: int)
    ensures
        n >= 0 ==> decimal_int(n) == decimal(n as nat),
        n < 0 ==> decimal_int(n) == seq!['-'] + decimal((-n) as nat),
{
    reveal_strlit("-");
    assert("-"@ =~= seq!['-']);
}

/// Digits of a given number are that many, and stand for what remains of the
/// number when all before them is cut off.
pub proof fn law_padding_keeps_the_last_digits(n: nat, width: nat)
    ensures
        padded(n, width).len() == width,
        is_digits(padded(n, width)),
        number_of(padded(n, width)) == n as int % vstd::arithmetic::power::pow(10, width),
    decreases width,
{
    if width == 0 {
        vstd::arithmetic::power::lemma_pow0(10);
    } else {
        let rest = (width - 1) as nat;
        let scale = vstd::arithmetic::power::pow(10, rest);
        law_padding_keeps_the_last_digits(n / 10, rest);
        lemma_one_more_digit(padded(n / 10, rest), n % 10);
        vstd::arithmetic::power::lemma_pow_positive(10, rest);
        vstd::arithmetic::power::lemma_pow_adds(10, 1, rest);
        vstd::arithmetic::power::lemma_pow1(10);
        vstd::arithmetic::div_mod::lemma_mod_breakdown(n as int, 10, scale);
    }
}

} // verus!
