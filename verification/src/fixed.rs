//! Decimal numbers with six digits after the point.
//!
//! Amounts of money, usages, ratios and tolerances are held as whole numbers of
//! millionths, so that sums and comparisons are exact.
use crate::text::{push_decimal, push_padded};
#[allow(unused_imports)]
use crate::text::{decimal, law_padding_keeps_the_last_digits, padded};
use crate::views::Duplicate;
#[allow(unused_imports)]
use vstd::arithmetic::power::pow;
use vstd::prelude::*;

verus! {

/// Millionths in one.
pub const MICROS: i64 = 1_000_000;

/// A decimal number, possibly negative, in millionths.
#[derive(Clone, Copy, Debug, PartialEq, Eq, PartialOrd, Ord, Hash, Structural)]
pub struct Decimal {
    pub micros: i64,
}

/// A decimal number that is not negative, in millionths.
#[derive(Clone, Copy, Debug, PartialEq, Eq, PartialOrd, Ord, Hash, Structural)]
pub struct Quantity {
    pub micros: u64,
}

impl View for Decimal {
    type V = Decimal;

    open spec fn view(&self) -> Decimal {
        *self
    }
}

impl View for Quantity {
    type V = Quantity;

    open spec fn view(&self) -> Quantity {
        *self
    }
}

impl Duplicate for Decimal {
    fn duplicate(&self) -> (copy: Self) {
        *self
    }
}

impl Duplicate for Quantity {
    fn duplicate(&self) -> (copy: Self) {
        *self
    }
}

/// The quotient of two decimal numbers, which may have no bound.
#[derive(Clone, Copy, Debug, PartialEq, Eq, Structural)]
pub enum Ratio {
    /// A quotient, in millionths rounded down.
    Finite(Decimal),
    /// A positive number in relation to nothing.
    Infinite,
}

/// An integer, or the nearest that a signed word can hold.
pub open spec fn saturated(n: int) -> int {
    if n > i64::MAX {
        i64::MAX as int
    } else if n < i64::MIN {
        i64::MIN as int
    } else {
        n
    }
}

/// The quotient of two numbers of millionths, in millionths rounded down.
pub open spec fn quotient_micros(a: int, b: int) -> int {
    (a * MICROS) / b
}

/// How far apart two integers are.
pub open spec fn distance(a: int, b: int) -> int {
    if a >= b {
        a - b
    } else {
        b - a
    }
}

/// The quotient of two decimal numbers, in millionths rounded down. One that
/// is too large for a word is held at the largest.
pub fn quotient(a: Decimal, b: Decimal) -> (ratio: Decimal)
    requires
        b.micros > 0,
    ensures
        ratio.micros == saturated(quotient_micros(a.micros as int, b.micros as int)),
{
    let scaled: i128 = a.micros as i128 * 1_000_000;
    let divisor: i128 = b.micros as i128;
    let floor: i128 = floor_div(scaled, divisor);
    if floor > i64::MAX as i128 {
        Decimal { micros: i64::MAX }
    } else if floor < i64::MIN as i128 {
        Decimal { micros: i64::MIN }
    } else {
        Decimal { micros: floor as i64 }
    }
}

fn floor_div(a: i128, b: i128) -> (q: i128)
    requires
        b > 0,
        -0x1_0000_0000_0000_0000_0000_0000 < a < 0x1_0000_0000_0000_0000_0000_0000,
    ensures
        q == a as int / b as int,
{
    if a >= 0 {
        a / b
    } else {
        let up: i128 = -(a + 1);
        let cut: i128 = up / b;
        proof {
            assert(a as int / b as int == -(cut as int) - 1) by (nonlinear_arith)
                requires
                    b > 0,
                    up == -(a + 1),
                    up >= 0,
                    cut == up as int / b as int,
            ;
        }
        -cut - 1
    }
}

/// The distance of two decimal numbers, in millionths.
pub fn distance_micros(a: Decimal, b: Decimal) -> (d: u128)
    ensures
        d == distance(a.micros as int, b.micros as int),
        d <= u64::MAX,
{
    let diff: i128 = a.micros as i128 - b.micros as i128;
    if diff >= 0 {
        diff as u128
    } else {
        (-diff) as u128
    }
}

/// Ten to a power.
pub open spec fn pow10(n: nat) -> nat
    decreases n,
{
    if n == 0 {
        1
    } else {
        10 * pow10((n - 1) as nat)
    }
}

/// A quotient rounded to the nearest integer, and to the even one of two.
pub open spec fn round_half_even(num: nat, den: nat) -> nat {
    let q = num / den;
    let r = num % den;
    if 2 * r < den {
        q
    } else if 2 * r > den {
        q + 1
    } else if q % 2 == 0 {
        q
    } else {
        q + 1
    }
}

/// A quotient with the given number of digits after the point.
pub open spec fn rounded_text(num: int, den: nat, places: nat) -> Seq<char> {
    let size: nat = if num < 0 {
        (-num) as nat
    } else {
        num as nat
    };
    let units = round_half_even(size * pow10(places), den);
    let sign = if num < 0 {
        "-"@
    } else {
        ""@
    };
    sign + decimal(units / pow10(places)) + "."@ + padded(units % pow10(places), places)
}

/// Ten to a power of at most six.
fn power_of_ten(places: u32) -> (scale: u128)
    requires
        places <= 6,
    ensures
        scale == pow10(places as nat),
        0 < scale <= 1_000_000,
{
    reveal_with_fuel(pow10, 7);
    if places == 0 {
        1
    } else if places == 1 {
        10
    } else if places == 2 {
        100
    } else if places == 3 {
        1000
    } else if places == 4 {
        10_000
    } else if places == 5 {
        100_000
    } else {
        1_000_000
    }
}

/// A quotient rounded to the nearest integer, and to the even one of two.
fn nearest(num: u128, den: u128) -> (units: u128)
    requires
        0 < den <= u64::MAX,
        num < u128::MAX,
    ensures
        units == round_half_even(num as nat, den as nat),
{
    let q: u128 = num / den;
    let r: u128 = num % den;
    assert(q <= num) by (nonlinear_arith)
        requires
            q == num as int / den as int,
            den > 0,
            num >= 0,
    ;
    if 2 * r < den {
        q
    } else if 2 * r > den {
        q + 1
    } else if q % 2 == 0 {
        q
    } else {
        q + 1
    }
}

/// Appends a quotient with up to six digits after the point.
pub fn push_rounded(text: &mut String, num: i128, den: u128, places: u32)
    requires
        -0x1_0000_0000_0000_0000_0000 < num < 0x1_0000_0000_0000_0000_0000,
        0 < den <= u64::MAX,
        places <= 6,
    ensures
        final(text)@ == old(text)@ + rounded_text(num as int, den as nat, places as nat),
{
    let ghost before = text@;
    let size: u128 = if num < 0 {
        (-num) as u128
    } else {
        num as u128
    };
    let scale: u128 = power_of_ten(places);
    assert(size * scale <= 0x1_0000_0000_0000_0000_0000 * 1_000_000) by (nonlinear_arith)
        requires
            0 <= size <= 0x1_0000_0000_0000_0000_0000,
            0 < scale <= 1_000_000,
    ;
    let units: u128 = nearest(size * scale, den);
    if num < 0 {
        text.append("-");
    } else {
        text.append("");
    }
    push_decimal(text, units / scale);
    text.append(".");
    push_padded(text, units % scale, places);
    assert(text@ =~= before + rounded_text(num as int, den as nat, places as nat));
}

/// A fraction in `width` digits without the zeros at its end.
pub open spec fn trimmed(n: nat, width: nat) -> Seq<char>
    decreases width,
{
    if width > 1 && n % 10 == 0 {
        trimmed(n / 10, (width - 1) as nat)
    } else {
        padded(n, width)
    }
}

/// A number of millionths as a decimal number, no longer than it need be.
pub open spec fn micros_text(micros: int) -> Seq<char> {
    let size: nat = if micros < 0 {
        (-micros) as nat
    } else {
        micros as nat
    };
    let sign = if micros < 0 {
        "-"@
    } else {
        ""@
    };
    let whole = sign + decimal(size / 1_000_000);
    if size % 1_000_000 == 0 {
        whole
    } else {
        whole + "."@ + trimmed(size % 1_000_000, 6)
    }
}

fn push_trimmed(text: &mut String, n: u128, width: u32)
    ensures
        final(text)@ == old(text)@ + trimmed(n as nat, width as nat),
    decreases width,
{
    if width > 1 && n % 10 == 0 {
        push_trimmed(text, n / 10, width - 1);
    } else {
        push_padded(text, n, width);
    }
}

/// Appends a decimal number.
pub fn push_decimal_number(text: &mut String, number: Decimal)
    ensures
        final(text)@ == old(text)@ + micros_text(number.micros as int),
{
    let ghost before = text@;
    let micros: i128 = number.micros as i128;
    let size: u128 = if micros < 0 {
        (-micros) as u128
    } else {
        micros as u128
    };
    if micros < 0 {
        text.append("-");
    } else {
        text.append("");
    }
    push_decimal(text, size / 1_000_000);
    if size % 1_000_000 != 0 {
        text.append(".");
        push_trimmed(text, size % 1_000_000, 6);
    }
    assert(text@ =~= before + micros_text(number.micros as int));
}

// ---------------------------------------------------------------- laws

/// A quotient is rounded to the nearest integer: it is off by no more than half,
/// and of two that are equally near it is the even one.
pub proof fn law_rounding_is_to_the_nearest(num: nat, den: nat)
    requires
        den > 0,
    ensures
        ({
            let units = round_half_even(num, den);
            let off = 2 * (units * den - num);
            &&& -den <= off <= den
            &&& off == den || off == -den ==> units % 2 == 0
        }),
{
    let q = num / den;
    let r = num % den;
    assert(num == q * den + r && 0 <= r < den) by (nonlinear_arith)
        requires
            den > 0,
            q == num / den,
            r == num % den,
    ;
    assert((q + 1) * den == q * den + den) by (nonlinear_arith);
}

/// A quotient is written with its sign, its whole part, a point and as many
/// digits as were asked for; together they stand for the rounded number.
pub proof fn law_quotients_are_written_in_full(num: int, den: nat, places: nat)
    requires
        den > 0,
    ensures
        ({
            let size: nat = if num < 0 {
                (-num) as nat
            } else {
                num as nat
            };
            let units = round_half_even(size * pow10(places), den);
            let text = rounded_text(num, den, places);
            let sign = if num < 0 {
                seq!['-']
            } else {
                seq![]
            };
            let whole = decimal(units / pow10(places));
            let rest = padded(units % pow10(places), places);
            &&& text == sign + whole + seq!['.'] + rest
            &&& rest.len() == places
            &&& units == (units / pow10(places)) * pow10(places) + units % pow10(places)
        }),
{
    reveal_strlit("-");
    reveal_strlit("");
    reveal_strlit(".");
    assert("-"@ =~= seq!['-']);
    assert(""@ =~= seq![]);
    assert("."@ =~= seq!['.']);
    law_padding_keeps_the_last_digits(
        round_half_even(
            (if num < 0 {
                -num
            } else {
                num
            }) as nat * pow10(places),
            den,
        ) % pow10(places),
        places,
    );
    lemma_pow10_positive(places);
    let size: nat = if num < 0 {
        (-num) as nat
    } else {
        num as nat
    };
    let units = round_half_even(size * pow10(places), den);
    let scale = pow10(places);
    assert(units == (units / scale) * scale + units % scale) by (nonlinear_arith)
        requires
            scale > 0,
    ;
}

proof fn lemma_pow10_positive(n: nat)
    ensures
        pow10(n) > 0,
    decreases n,
{
    if n > 0 {
        lemma_pow10_positive((n - 1) as nat);
    }
}

/// Zeros at the end of a fraction are left out, and nothing else: what is left does
/// not end in a zero unless it is a single digit.
pub proof fn law_trailing_zeros_are_left_out(n: nat, width: nat)
    requires
        width > 0,
    ensures
        ({
            let text = trimmed(n, width);
            &&& 0 < text.len() <= width
            &&& padded(n, width) == text + Seq::new((width - text.len()) as nat, |i: int| '0')
            &&& text.len() > 1 ==> text.last() != '0'
        }),
    decreases width,
{
    law_padding_keeps_the_last_digits(n, width);
    reveal_strlit("0");
    reveal_strlit("1");
    reveal_strlit("2");
    reveal_strlit("3");
    reveal_strlit("4");
    reveal_strlit("5");
    reveal_strlit("6");
    reveal_strlit("7");
    reveal_strlit("8");
    reveal_strlit("9");
    let text = trimmed(n, width);
    if width > 1 && n % 10 == 0 {
        law_trailing_zeros_are_left_out(n / 10, (width - 1) as nat);
        let zeros = Seq::new((width - 1 - text.len()) as nat, |i: int| '0');
        let more = Seq::new((width - text.len()) as nat, |i: int| '0');
        assert("0"@ =~= seq!['0']);
        assert(zeros + "0"@ =~= more);
        assert(padded(n, width) =~= text + more);
    } else {
        let none = Seq::new((width - text.len()) as nat, |i: int| '0');
        assert(padded(n, width) =~= text + none);
    }
}

/// A number of millionths is written with its sign and its whole part; the fraction
/// follows a point where there is one.
pub proof fn law_decimals_are_written(micros: int)
    ensures
        ({
            let size: nat = if micros < 0 {
                (-micros) as nat
            } else {
                micros as nat
            };
            let sign = if micros < 0 {
                seq!['-']
            } else {
                seq![]
            };
            let whole = sign + decimal(size / 1_000_000);
            &&& size % 1_000_000 == 0 ==> micros_text(micros) == whole
            &&& size % 1_000_000 != 0 ==> micros_text(micros) == whole + seq!['.'] + trimmed(
                size % 1_000_000,
                6,
            )
        }),
{
    reveal_strlit("-");
    reveal_strlit("");
    reveal_strlit(".");
    assert("-"@ =~= seq!['-']);
    assert(""@ =~= seq![]);
    assert("."@ =~= seq!['.']);
}

/// The distance of two numbers is the same from either side, and added to the
/// lesser it gives the larger.
pub proof fn law_distance_is_symmetric(a: int, b: int)
    ensures
        distance(a, b) == distance(b, a),
        distance(a, b) >= 0,
        a <= b ==> a + distance(a, b) == b,
{
}

/// A quotient that a word can hold is the largest number of millionths that does
/// not exceed the true one; what is too large is held at the end of the range.
pub proof fn law_quotient_is_rounded_down(a: int, b: int)
    requires
        b > 0,
    ensures
        ({
            let q = saturated(quotient_micros(a, b));
            &&& i64::MIN <= q <= i64::MAX
            &&& i64::MIN < q < i64::MAX ==> q * b <= a * 1_000_000 < (q + 1) * b
            &&& q == i64::MAX ==> i64::MAX * b <= a * 1_000_000
            &&& q == i64::MIN ==> a * 1_000_000 < (i64::MIN + 1) * b
        }),
{
    let n = a * 1_000_000;
    let q = n / b;
    assert(q * b <= n < (q + 1) * b) by (nonlinear_arith)
        requires
            b > 0,
            q == n / b,
    ;
    if q > i64::MAX {
        assert(i64::MAX * b <= q * b) by (nonlinear_arith)
            requires
                b > 0,
                q > i64::MAX,
        ;
    }
    if q < i64::MIN {
        assert((q + 1) * b <= (i64::MIN + 1) * b) by (nonlinear_arith)
            requires
                b > 0,
                q < i64::MIN,
        ;
    }
}

/// So many digits after the point are units of that power of ten.
pub proof fn law_digits_are_powers_of_ten(n: nat)
    ensures
        pow10(n) == pow(10, n),
    decreases n,
{
    reveal(pow);
    if n > 0 {
        law_digits_are_powers_of_ten((n - 1) as nat);
    }
}

} // verus!
